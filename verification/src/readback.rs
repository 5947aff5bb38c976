//! What reading gives back of what was written.
use crate::bucket::{
    bucket_with, cell_of, empty_bucket, lemma_bucket_with_valid, lemma_cell_of_missing,
    lemma_cell_of_name, lemma_with_columns, names_distinct, new_bucket_row, present, row_index,
    widened, widened_row, with_columns, BucketView,
};
use crate::clear::ClearedEntityView;
use crate::entries::{column_entries, entries_in, entries_in_bucket, latest_until, Entry};
use crate::ingest::{cascade_entity, cleared_cells, Cascade};
use crate::names::{RowId, TimeInt, Timeline, TIME_MIN};
use crate::path::entity_path_hash;
use crate::retry::{
    inserted, law_retries_change_only_the_counter, DEFAULT_INSERT_ROW_STEP_SIZE,
    MAX_INSERT_ROW_ATTEMPTS,
};
use crate::row::{components_distinct, times_temporal, timelines_distinct, DataCell, RowView};
use crate::sorting::{
    insert_sorted, lemma_insert_sorted, row_before, row_ids_distinct, rows_sorted, BucketRow,
};
use crate::store::{
    in_use, latest_entry, put_static, put_statics, slot_index, static_cell_of, static_entry,
    static_index, statics_with, store_with, table_or_empty, tables_valid, tables_with, type_of,
    DataStoreConfig, LatestAtQuery, RowMeta, StaticCell, StoreView, TableSlot,
};
use crate::table::{
    bucket_of, empty_table, lemma_bucket_of, lemma_table_with_valid, lemma_with_columns_contains,
    opens_bucket, table_with, TableView,
};
use crate::upkeep::{cells_in_table, find_row};
use vstd::prelude::*;

verus! {

/// Whether one cell comes before another: by time, and at the same time by row id.
pub open spec fn entry_before(a: Entry, b: Entry) -> bool {
    a.time < b.time || (a.time == b.time && a.row_id.bits < b.row_id.bits)
}

pub open spec fn entries_sorted(entries: Seq<Entry>) -> bool {
    forall|i: int, j: int|
        #![trigger entries[i], entries[j]]
        0 <= i < j < entries.len() ==> entry_before(entries[i], entries[j])
}

/// Cells in order with one more put in its place.
pub open spec fn insert_entry(entries: Seq<Entry>, entry: Entry) -> Seq<Entry>
    decreases entries.len(),
{
    if entries.len() == 0 || entry_before(entries.last(), entry) {
        entries.push(entry)
    } else {
        insert_entry(entries.drop_last(), entry).push(entries.last())
    }
}

/// The later one of what was found and something new.
pub open spec fn later_entry(found: Option<Entry>, new: Entry) -> Option<Entry> {
    match found {
        Some(entry) => if entry_before(entry, new) {
            Some(new)
        } else {
            Some(entry)
        },
        None => Some(new),
    }
}

proof fn lemma_latest_of(entries: Seq<Entry>, at: i64)
    ensures
        latest_until(entries, at) matches Some(entry) ==> entries.contains(entry),
    decreases entries.len(),
{
    if entries.len() > 0 {
        if entries.last().time <= at {
            assert(entries[entries.len() - 1] == entries.last());
        } else {
            lemma_latest_of(entries.drop_last(), at);
            if let Some(entry) = latest_until(entries.drop_last(), at) {
                let i = entries.drop_last().index_of(entry);
                assert(entries[i] == entry);
            }
        }
    }
}

/// What is latest once one more cell was put in its place.
proof fn lemma_latest_after_insert(entries: Seq<Entry>, entry: Entry, at: i64)
    requires
        entries_sorted(entries),
    ensures
        latest_until(insert_entry(entries, entry), at) == if entry.time <= at {
            later_entry(latest_until(entries, at), entry)
        } else {
            latest_until(entries, at)
        },
    decreases entries.len(),
{
    if entries.len() == 0 || entry_before(entries.last(), entry) {
        assert(entries.push(entry).drop_last() =~= entries);
        if entry.time <= at {
            lemma_latest_of(entries, at);
            if let Some(found) = latest_until(entries, at) {
                let i = entries.index_of(found);
                if i < entries.len() - 1 {
                    assert(entry_before(entries[i], entries[entries.len() - 1]));
                }
                assert(entry_before(found, entry));
            }
        }
    } else {
        let init = entries.drop_last();
        assert(entries_sorted(init)) by {
            assert forall|i: int, j: int|
                #![trigger init[i], init[j]]
                0 <= i < j < init.len() implies entry_before(init[i], init[j]) by {
                assert(entry_before(entries[i], entries[j]));
            }
        }
        lemma_latest_after_insert(init, entry, at);
        let more = insert_entry(init, entry);
        assert(more.push(entries.last()).drop_last() =~= more);
    }
}

proof fn lemma_insert_before(entries: Seq<Entry>, rest: Seq<Entry>, entry: Entry)
    requires
        forall|i: int| 0 <= i < rest.len() ==> !entry_before(#[trigger] rest[i], entry),
    ensures
        insert_entry(entries + rest, entry) == insert_entry(entries, entry) + rest,
    decreases rest.len(),
{
    if rest.len() == 0 {
        assert(entries + rest =~= entries);
        assert(insert_entry(entries, entry) + rest =~= insert_entry(entries, entry));
    } else {
        let init = rest.drop_last();
        assert forall|i: int| 0 <= i < init.len() implies !entry_before(#[trigger] init[i], entry) by {
            assert(!entry_before(rest[i], entry));
        }
        lemma_insert_before(entries, init, entry);
        assert((entries + rest).drop_last() =~= entries + init);
        assert((entries + rest).last() == rest[rest.len() - 1]);
        assert(insert_entry(entries + rest, entry) =~= insert_entry(entries, entry) + rest);
    }
}

proof fn lemma_insert_after(first: Seq<Entry>, entries: Seq<Entry>, entry: Entry)
    requires
        first.len() > 0 ==> entry_before(first.last(), entry),
    ensures
        insert_entry(first + entries, entry) == first + insert_entry(entries, entry),
    decreases entries.len(),
{
    if entries.len() == 0 {
        assert(first + entries =~= first);
        assert(insert_entry(first, entry) =~= first + insert_entry(entries, entry));
    } else {
        assert((first + entries).drop_last() =~= first + entries.drop_last());
        assert((first + entries).last() == entries.last());
        lemma_insert_after(first, entries.drop_last(), entry);
        assert(insert_entry(first + entries, entry) =~= first + insert_entry(entries, entry));
    }
}

// --- Buckets.

pub open spec fn entry_at(row: BucketRow, column: int) -> Entry {
    Entry { time: row.time, row_id: row.row_id, cell: row.cells[column]->0 }
}

/// The cells of sorted rows are sorted, and come from them.
proof fn lemma_column_entries_sorted(rows: Seq<BucketRow>, column: int)
    requires
        rows_sorted(rows),
    ensures
        entries_sorted(column_entries(rows, column)),
        forall|k: int|
            0 <= k < column_entries(rows, column).len() ==> is_of_row(
                rows,
                #[trigger] column_entries(rows, column)[k],
            ),
    decreases rows.len(),
{
    if rows.len() > 0 {
        let init = rows.drop_last();
        assert(rows_sorted(init)) by {
            assert forall|i: int, j: int|
                #![trigger init[i], init[j]]
                0 <= i < j < init.len() implies row_before(init[i], init[j]) by {
                assert(row_before(rows[i], rows[j]));
            }
        }
        lemma_column_entries_sorted(init, column);
        let rest = column_entries(init, column);
        let all = column_entries(rows, column);
        let last = rows[rows.len() - 1];
        assert forall|k: int| 0 <= k < all.len() implies is_of_row(rows, #[trigger] all[k]) by {
            if k < rest.len() {
                assert(is_of_row(init, rest[k]));
                let i = choose|i: int|
                    0 <= i < init.len() && (#[trigger] init[i]).time == rest[k].time
                        && init[i].row_id == rest[k].row_id;
                assert(rows[i].time == all[k].time);
            } else {
                assert(rows[rows.len() - 1].time == all[k].time);
            }
        }
        assert forall|i: int, j: int|
            #![trigger all[i], all[j]]
            0 <= i < j < all.len() implies entry_before(all[i], all[j]) by {
            if j < rest.len() {
                assert(entry_before(rest[i], rest[j]));
            } else {
                assert(is_of_row(init, rest[i]));
                let k = choose|k: int|
                    0 <= k < init.len() && (#[trigger] init[k]).time == rest[i].time
                        && init[k].row_id == rest[i].row_id;
                assert(row_before(rows[k], last));
            }
        }
    }
}

/// Whether a cell has the time and the id of one of some rows.
pub open spec fn is_of_row(rows: Seq<BucketRow>, entry: Entry) -> bool {
    exists|i: int|
        0 <= i < rows.len() && (#[trigger] rows[i]).time == entry.time && rows[i].row_id
            == entry.row_id
}

proof fn lemma_column_entries_insert(rows: Seq<BucketRow>, row: BucketRow, column: int)
    requires
        rows_sorted(rows),
    ensures
        column_entries(insert_sorted(rows, row), column) == if row.cells[column] is Some {
            insert_entry(column_entries(rows, column), entry_at(row, column))
        } else {
            column_entries(rows, column)
        },
    decreases rows.len(),
{
    let entries = column_entries(rows, column);
    if rows.len() == 0 || row_before(rows.last(), row) {
        assert(rows.push(row).drop_last() =~= rows);
        lemma_column_entries_sorted(rows, column);
        if entries.len() > 0 {
            let last = entries[entries.len() - 1];
            assert(is_of_row(rows, last));
            let i = choose|i: int|
                0 <= i < rows.len() && (#[trigger] rows[i]).time == last.time && rows[i].row_id
                    == last.row_id;
            if i < rows.len() - 1 {
                assert(row_before(rows[i], rows[rows.len() - 1]));
            }
            assert(entry_before(last, entry_at(row, column)));
        }
    } else {
        let init = rows.drop_last();
        let last = rows.last();
        assert(rows_sorted(init)) by {
            assert forall|i: int, j: int|
                #![trigger init[i], init[j]]
                0 <= i < j < init.len() implies row_before(init[i], init[j]) by {
                assert(row_before(rows[i], rows[j]));
            }
        }
        lemma_column_entries_insert(init, row, column);
        let more = insert_sorted(init, row);
        assert(more.push(last).drop_last() =~= more);
        if last.cells[column] is Some {
            assert(entries.drop_last() =~= column_entries(init, column));
        }
    }
}

proof fn lemma_column_entries_widened(
    rows: Seq<BucketRow>,
    num_columns: int,
    added: nat,
    column: int,
)
    requires
        forall|i: int| 0 <= i < rows.len() ==> (#[trigger] rows[i]).cells.len() == num_columns,
        0 <= column < num_columns + added,
    ensures
        column_entries(widened(rows, added), column) == if column < num_columns {
            column_entries(rows, column)
        } else {
            Seq::empty()
        },
    decreases rows.len(),
{
    if rows.len() > 0 {
        let init = rows.drop_last();
        assert forall|i: int| 0 <= i < init.len() implies (#[trigger] init[i]).cells.len()
            == num_columns by {
            assert(rows[i].cells.len() == num_columns);
        }
        lemma_column_entries_widened(init, num_columns, added, column);
        let wide = widened(rows, added);
        assert(wide.drop_last() =~= widened(init, added));
        assert(rows[rows.len() - 1].cells.len() == num_columns);
        assert(wide.last() == widened_row(rows.last(), added));
        if column < num_columns {
            assert(wide.last().cells[column] == rows.last().cells[column]);
        } else {
            assert(wide.last().cells[column] is None);
        }
    } else {
        assert(widened(rows, added) =~= rows);
        assert(column_entries(rows, column) =~= Seq::empty());
    }
}

/// The cell of a row for a component, with the time and the id of the row.
pub open spec fn row_entry(
    cells: Seq<DataCell>,
    time: i64,
    row_id: RowId,
    component: Seq<char>,
) -> Option<Entry> {
    match cell_of(cells, component) {
        Some(cell) => Some(Entry { time, row_id, cell }),
        None => None,
    }
}

/// Cells in order, and one more if there is one.
pub open spec fn with_entry(entries: Seq<Entry>, entry: Option<Entry>) -> Seq<Entry> {
    match entry {
        Some(entry) => insert_entry(entries, entry),
        None => entries,
    }
}

proof fn lemma_bucket_with_entries(
    bucket: BucketView,
    time: i64,
    row_id: RowId,
    insert_id: u64,
    cells: Seq<DataCell>,
    component: Seq<char>,
)
    requires
        bucket.valid(),
    ensures
        entries_in_bucket(bucket_with(bucket, time, row_id, insert_id, cells), component)
            == with_entry(
            entries_in_bucket(bucket, component),
            row_entry(cells, time, row_id, component),
        ),
{
    let columns = with_columns(bucket.columns, cells);
    let added = (columns.len() - bucket.columns.len()) as nat;
    crate::bucket::lemma_with_columns(bucket.columns, cells);
    crate::table::lemma_with_columns_contains(bucket.columns, cells, component);
    let row = new_bucket_row(
        columns,
        time,
        row_id,
        if bucket.store_insert_ids {
            Some(insert_id)
        } else {
            None
        },
        cells,
    );
    let wide = widened(bucket.rows, added);
    assert(rows_sorted(wide)) by {
        assert forall|i: int, j: int|
            #![trigger wide[i], wide[j]]
            0 <= i < j < wide.len() implies row_before(wide[i], wide[j]) by {
            assert(row_before(bucket.rows[i], bucket.rows[j]));
        }
    }
    if columns.contains(component) {
        let column = columns.index_of(component);
        lemma_column_entries_insert(wide, row, column);
        assert(row.cells[column] == cell_of(cells, component));
        assert forall|i: int| 0 <= i < bucket.rows.len() implies (
        #[trigger] bucket.rows[i]).cells.len() == bucket.columns.len() by {}
        lemma_column_entries_widened(
            bucket.rows,
            bucket.columns.len() as int,
            added,
            column,
        );
        if bucket.columns.contains(component) {
            let k = bucket.columns.index_of(component);
            assert(columns.take(bucket.columns.len() as int)[k] == columns[k]);
            if k < column {
                assert(columns[k] != columns[column]);
            } else if column < k {
                assert(columns[column] != columns[k]);
            }
        } else if column < bucket.columns.len() {
            assert(columns.take(bucket.columns.len() as int)[column] == columns[column]);
            assert(bucket.columns[column] == component);
        }
    } else {
        assert(!crate::row::has_component(cells, component));
        crate::bucket::lemma_cell_of_missing(cells, component);
    }
}

// --- Tables.

/// The cells of one bucket are sorted, and their times lie where the bucket does.
proof fn lemma_bucket_entries(table: TableView, b: int, component: Seq<char>)
    requires
        table.valid(),
        0 <= b < table.buckets.len(),
    ensures
        ({
            let entries = entries_in_bucket(table.buckets[b].bucket, component);
            &&& entries_sorted(entries)
            &&& forall|k: int|
                0 <= k < entries.len() ==> {
                    &&& table.buckets[b].start <= (#[trigger] entries[k]).time
                    &&& b + 1 < table.buckets.len() ==> entries[k].time < table.buckets[b
                        + 1].start
                }
        }),
{
    reveal(TableView::valid);
    let bucket = table.buckets[b].bucket;
    assert(bucket.valid());
    if bucket.columns.contains(component) {
        let column = bucket.columns.index_of(component);
        lemma_column_entries_sorted(bucket.rows, column);
        let entries = entries_in_bucket(bucket, component);
        assert forall|k: int| 0 <= k < entries.len() implies {
            &&& table.buckets[b].start <= (#[trigger] entries[k]).time
            &&& b + 1 < table.buckets.len() ==> entries[k].time < table.buckets[b + 1].start
        } by {
            assert(is_of_row(bucket.rows, entries[k]));
            let i = choose|i: int|
                0 <= i < bucket.rows.len() && (#[trigger] bucket.rows[i]).time == entries[k].time
                    && bucket.rows[i].row_id == entries[k].row_id;
            assert(table.buckets[b].bucket.rows[i].time == entries[k].time);
        }
    }
}

/// The cells of the first buckets are sorted, and lie before where the next one starts.
pub proof fn lemma_first_entries(table: TableView, n: int, component: Seq<char>)
    requires
        table.valid(),
        0 <= n <= table.buckets.len(),
    ensures
        ({
            let entries = entries_in(table.buckets.take(n), component);
            &&& entries_sorted(entries)
            &&& n < table.buckets.len() ==> forall|k: int|
                0 <= k < entries.len() ==> (#[trigger] entries[k]).time < table.buckets[n].start
        }),
    decreases n,
{
    let entries = entries_in(table.buckets.take(n), component);
    if n > 0 {
        lemma_first_entries(table, n - 1, component);
        lemma_bucket_entries(table, n - 1, component);
        let first = entries_in(table.buckets.take(n - 1), component);
        let own = entries_in_bucket(table.buckets[n - 1].bucket, component);
        assert(table.buckets.take(n).drop_last() =~= table.buckets.take(n - 1));
        assert(entries == first + own);
        assert forall|i: int, j: int|
            #![trigger entries[i], entries[j]]
            0 <= i < j < entries.len() implies entry_before(entries[i], entries[j]) by {
            if j < first.len() {
                assert(entry_before(first[i], first[j]));
            } else if i < first.len() {
                assert(first[i].time < table.buckets[n - 1].start);
                assert(table.buckets[n - 1].start <= own[j - first.len()].time);
            } else {
                assert(entry_before(own[i - first.len()], own[j - first.len()]));
            }
        }
        if n < table.buckets.len() {
            assert forall|k: int| 0 <= k < entries.len() implies (#[trigger] entries[k]).time
                < table.buckets[n].start by {
                if k < first.len() {
                    assert(first[k].time < table.buckets[n - 1].start);
                    assert(table.buckets[n - 1].start < table.buckets[n].start) by {
                        reveal(TableView::valid);
                    }
                } else {
                    assert(own[k - first.len()].time < table.buckets[n].start);
                }
            }
        }
    } else {
        assert(entries =~= Seq::empty());
    }
}

/// The cells of the last buckets do not lie before where the first of these starts.
proof fn lemma_last_entries(table: TableView, n: int, component: Seq<char>)
    requires
        table.valid(),
        0 <= n < table.buckets.len(),
    ensures
        ({
            let entries = entries_in(table.buckets.skip(n), component);
            forall|k: int|
                0 <= k < entries.len() ==> (#[trigger] entries[k]).time >= table.buckets[n].start
        }),
    decreases table.buckets.len() - n,
{
    let entries = entries_in(table.buckets.skip(n), component);
    let rest = table.buckets.skip(n + 1);
    assert(table.buckets.skip(n) =~= seq![table.buckets[n]] + rest);
    crate::survival::lemma_entries_concat(seq![table.buckets[n]], rest, component);
    crate::survival::lemma_entries_one(table.buckets[n], component);
    lemma_bucket_entries(table, n, component);
    let own = entries_in_bucket(table.buckets[n].bucket, component);
    if n + 1 < table.buckets.len() {
        lemma_last_entries(table, n + 1, component);
        assert(table.buckets[n].start < table.buckets[n + 1].start) by {
            reveal(TableView::valid);
        }
    } else {
        assert(rest =~= Seq::empty());
    }
    assert forall|k: int| 0 <= k < entries.len() implies (#[trigger] entries[k]).time
        >= table.buckets[n].start by {
        if k < own.len() {
            assert(own[k].time >= table.buckets[n].start);
        } else {
            assert(entries_in(rest, component)[k - own.len()] == entries[k]);
        }
    }
}

/// Adding a row to a table puts its cells in their places, and changes no others.
proof fn lemma_table_with_entries(
    table: TableView,
    bucket_num_rows: u64,
    time: i64,
    row_id: RowId,
    insert_id: u64,
    cells: Seq<DataCell>,
    component: Seq<char>,
)
    requires
        table.valid(),
        time >= TIME_MIN,
    ensures
        entries_in(
            table_with(table, bucket_num_rows, time, row_id, insert_id, cells).buckets,
            component,
        ) == with_entry(
            entries_in(table.buckets, component),
            row_entry(cells, time, row_id, component),
        ),
{
    let after = table_with(table, bucket_num_rows, time, row_id, insert_id, cells);
    let new = row_entry(cells, time, row_id, component);
    let b = bucket_of(table.buckets, time);
    crate::table::lemma_table_bucket_of(table, time);
    let all = table.buckets;
    let n = all.len() as int;
    if opens_bucket(table, bucket_num_rows, time) {
        let fresh = crate::bucket::empty_bucket(table.store_insert_ids);
        assert(fresh.valid());
        lemma_bucket_with_entries(fresh, time, row_id, insert_id, cells, component);
        assert(entries_in_bucket(fresh, component) =~= Seq::empty());
        assert(after.buckets.drop_last() =~= all);
        let entries = entries_in(all, component);
        if let Some(entry) = new {
            lemma_first_entries(table, n, component);
            assert(all.take(n) =~= all);
            lemma_full_entries_before(table, time, component);
            assert(insert_entry(Seq::empty(), entry) =~= seq![entry]);
            assert(entries + seq![entry] =~= entries.push(entry));
        } else {
            assert(entries + Seq::<Entry>::empty() =~= entries);
        }
    } else {
        let first = all.take(b);
        let rest = all.skip(b + 1);
        let slot = after.buckets[b];
        assert(all =~= first + seq![all[b]] + rest);
        assert(after.buckets =~= first + seq![slot] + rest);
        crate::survival::lemma_entries_concat(first + seq![all[b]], rest, component);
        crate::survival::lemma_entries_concat(first, seq![all[b]], component);
        crate::survival::lemma_entries_concat(first + seq![slot], rest, component);
        crate::survival::lemma_entries_concat(first, seq![slot], component);
        crate::survival::lemma_entries_one(all[b], component);
        crate::survival::lemma_entries_one(slot, component);
        lemma_bucket_with_entries(all[b].bucket, time, row_id, insert_id, cells, component);
        if let Some(entry) = new {
            let e_first = entries_in(first, component);
            let e_own = entries_in_bucket(all[b].bucket, component);
            let e_rest = entries_in(rest, component);
            lemma_first_entries(table, b, component);
            if e_first.len() > 0 {
                assert(e_first[e_first.len() - 1].time < all[b].start);
            }
            lemma_insert_after(e_first, e_own, entry);
            if b + 1 < n {
                lemma_last_entries(table, b + 1, component);
                assert(all[b + 1].start > time) by {
                    reveal(TableView::valid);
                    crate::table::lemma_bucket_of(all, time);
                }
                assert forall|i: int| 0 <= i < e_rest.len() implies !entry_before(
                    #[trigger] e_rest[i],
                    entry,
                ) by {
                    assert(e_rest[i].time >= all[b + 1].start);
                }
            } else {
                assert(rest =~= Seq::empty());
            }
            lemma_insert_before(e_first + e_own, e_rest, entry);
        }
    }
}

/// If a row opens a new bucket, all cells that there are lie before it.
proof fn lemma_full_entries_before(table: TableView, time: i64, component: Seq<char>)
    requires
        table.valid(),
        table.buckets.last().bucket.rows.len() > 0,
        table.buckets.last().bucket.rows.last().time < time,
    ensures
        entries_in(table.buckets, component).len() > 0 ==> entries_in(
            table.buckets,
            component,
        ).last().time < time,
{
    reveal(TableView::valid);
    let all = table.buckets;
    let n = all.len() as int;
    let entries = entries_in(all, component);
    if entries.len() > 0 {
        let bucket = all[n - 1].bucket;
        let own = entries_in_bucket(bucket, component);
        let first = entries_in(all.drop_last(), component);
        assert(bucket.valid());
        let last_row = bucket.rows[bucket.rows.len() - 1];
        if own.len() > 0 {
            let column = bucket.columns.index_of(component);
            lemma_column_entries_sorted(bucket.rows, column);
            let last = own[own.len() - 1];
            assert(is_of_row(bucket.rows, last));
            let i = choose|i: int|
                0 <= i < bucket.rows.len() && (#[trigger] bucket.rows[i]).time == last.time
                    && bucket.rows[i].row_id == last.row_id;
            if i < bucket.rows.len() - 1 {
                assert(row_before(bucket.rows[i], last_row));
            }
            assert(entries.last() == last);
        } else {
            lemma_first_entries(table, n - 1, component);
            assert(all.take(n - 1) =~= all.drop_last());
            assert(entries =~= first);
            assert(first[first.len() - 1].time < all[n - 1].start);
            assert(all[n - 1].start <= all[n - 1].bucket.rows[bucket.rows.len() - 1].time);
        }
    }
}

// --- Stores.

/// The position of a timeline among times, if there is one.
pub open spec fn time_on(times: Seq<(Timeline, TimeInt)>, timeline: Timeline) -> Option<TimeInt>
    decreases times.len(),
{
    if times.len() == 0 {
        None
    } else if times.last().0@ == timeline@ {
        Some(times.last().1)
    } else {
        time_on(times.drop_last(), timeline)
    }
}

proof fn lemma_time_on(times: Seq<(Timeline, TimeInt)>, timeline: Timeline)
    ensures
        time_on(times, timeline) is None <==> forall|j: int|
            0 <= j < times.len() ==> (#[trigger] times[j]).0@ != timeline@,
    decreases times.len(),
{
    if times.len() > 0 {
        let init = times.drop_last();
        lemma_time_on(init, timeline);
        if times.last().0@ == timeline@ {
            assert(times[times.len() - 1].0@ == timeline@);
        } else {
            if time_on(init, timeline) is None {
                assert forall|j: int| 0 <= j < times.len() implies (#[trigger] times[j]).0@
                    != timeline@ by {
                    if j < init.len() {
                        assert(init[j].0@ != timeline@);
                    }
                }
            } else {
                let j = choose|j: int| 0 <= j < init.len() && (#[trigger] init[j]).0@ == timeline@;
                assert(times[j].0@ == timeline@);
            }
        }
    }
}

/// The table of an entity on a timeline once a row was added to it.
proof fn lemma_table_after(
    tables: Seq<TableSlot>,
    config: DataStoreConfig,
    times: Seq<(Timeline, TimeInt)>,
    row: RowView,
    insert_id: u64,
    timeline: Timeline,
    time: TimeInt,
)
    requires
        tables_valid(tables, config.store_insert_ids),
        timelines_distinct(times),
        times_temporal(times),
        forall|j: int|
            0 <= j < times.len() ==> !(#[trigger] table_or_empty(
                tables,
                entity_path_hash(row.entity_path),
                times[j].0,
                row.entity_path,
                config.store_insert_ids,
            )).has_row_id(row.row_id),
        time_on(times, timeline) == Some(time),
    ensures
        ({
            let hash = entity_path_hash(row.entity_path);
            let flag = config.store_insert_ids;
            let after = tables_with(tables, config, times, row, insert_id);
            let before = table_or_empty(tables, hash, timeline, row.entity_path, flag);
            &&& slot_index(after, hash, timeline@) is Some
            &&& after[slot_index(after, hash, timeline@)->0].table.buckets == table_with(
                before,
                config.indexed_bucket_num_rows,
                time.value,
                row.row_id,
                insert_id,
                row.cells,
            ).buckets
        }),
    decreases times.len(),
{
    let hash = entity_path_hash(row.entity_path);
    let flag = config.store_insert_ids;
    let init = times.drop_last();
    let n = times.len() - 1;
    assert(timelines_distinct(init)) by {
        assert forall|i: int, j: int|
            #![trigger init[i], init[j]]
            0 <= i < j < init.len() implies init[i].0@ != init[j].0@ by {
            assert(times[i].0@ != times[j].0@);
        }
    }
    assert(times_temporal(init)) by {
        assert forall|i: int| 0 <= i < init.len() implies (#[trigger] init[i]).1.value
            >= TIME_MIN by {
            assert(times[i].1.value >= TIME_MIN);
        }
    }
    assert forall|j: int| 0 <= j < init.len() implies !(#[trigger] table_or_empty(
        tables,
        hash,
        init[j].0,
        row.entity_path,
        flag,
    )).has_row_id(row.row_id) by {
        assert(init[j] == times[j]);
        assert(!table_or_empty(tables, hash, times[j].0, row.entity_path, flag).has_row_id(
            row.row_id,
        ));
    }
    crate::store::lemma_tables_with(tables, config, init, row, insert_id);
    crate::store::lemma_tables_with(tables, config, times, row, insert_id);
    let rest = tables_with(tables, config, init, row, insert_id);
    let after = tables_with(tables, config, times, row, insert_id);
    let last = times[n].0;
    assert(times[n].1.value >= TIME_MIN);
    assert forall|j: int| 0 <= j < init.len() implies (#[trigger] init[j]).0@ != last@ by {
        assert(times[j].0@ != times[n].0@);
    }
    assert(table_or_empty(rest, hash, last, row.entity_path, flag) == table_or_empty(
        tables,
        hash,
        last,
        row.entity_path,
        flag,
    ));
    assert(!table_or_empty(tables, hash, times[n].0, row.entity_path, flag).has_row_id(
        row.row_id,
    ));
    crate::store::lemma_tables_with_one(rest, config, last, times[n].1.value, row, insert_id);
    if last@ == timeline@ {
        let old = table_or_empty(rest, hash, last, row.entity_path, flag);
        let new = TableSlot {
            hash,
            table: table_with(
                old,
                config.indexed_bucket_num_rows,
                times[n].1.value,
                row.row_id,
                insert_id,
                row.cells,
            ),
        };
        let before = table_or_empty(tables, hash, timeline, row.entity_path, flag);
        assert(before.buckets == old.buckets && before.store_insert_ids == old.store_insert_ids);
        let i = match slot_index(rest, hash, last@) {
            Some(i) => i,
            None => crate::store::slots_up_to(rest, hash),
        };
        crate::store::lemma_slots_up_to(rest, flag, hash);
        assert(after[i] == new);
        if slot_index(rest, hash, last@) is Some {
            assert(crate::store::is_table_of(rest[i], hash, last@));
        }
        assert(crate::store::is_table_of(after[i], hash, timeline@));
        crate::store::lemma_slot_index(after, flag, hash, timeline@, i);
    } else {
        lemma_table_after(tables, config, init, row, insert_id, timeline, time);
        assert(table_or_empty(after, hash, timeline, row.entity_path, flag) == table_or_empty(
            rest,
            hash,
            timeline,
            row.entity_path,
            flag,
        ));
        let k = slot_index(rest, hash, timeline@)->0;
        if slot_index(after, hash, timeline@) is None {
            // Adding to another table removes none.
            assert(crate::store::is_table_of(rest[k], hash, timeline@));
            let i = match slot_index(rest, hash, last@) {
                Some(i) => i,
                None => crate::store::slots_up_to(rest, hash),
            };
            crate::store::lemma_slots_up_to(rest, flag, hash);
            if slot_index(rest, hash, last@) is Some || k < i {
                assert(after[k] == rest[k]);
                assert(crate::store::is_table_of(after[k], hash, timeline@));
            } else {
                assert(after[k + 1] == rest[k]);
                assert(crate::store::is_table_of(after[k + 1], hash, timeline@));
            }
        }
    }
}

/// What a row adds to what a query may find: its cell for the component, if it is about the entity
/// and was logged on the timeline at or before the time.
pub open spec fn what_row_adds(
    row: RowView,
    query: LatestAtQuery,
    hash: u64,
    component: Seq<char>,
) -> Option<Entry> {
    if hash != entity_path_hash(row.entity_path) {
        None
    } else {
        match time_on(row.times, query.timeline) {
            Some(time) => if time.value <= query.at.value {
                row_entry(row.cells, time.value, row.row_id, component)
            } else {
                None
            },
            None => None,
        }
    }
}

/// Law: after a row was added to a store, a query finds the later one of what it would have found
/// before and what the row holds, and static data wins over both. In particular a query finds what
/// was just written, unless there is something later, and rows about something else change nothing.
pub proof fn law_queries_find_what_was_written(
    store: StoreView,
    config: DataStoreConfig,
    row: RowView,
    query: LatestAtQuery,
    hash: u64,
    component: Seq<char>,
)
    requires
        tables_valid(store.tables, config.store_insert_ids),
        timelines_distinct(row.times),
        times_temporal(row.times),
        row.times.len() > 0,
        !in_use(store, config, row),
    ensures
        latest_entry(store_with(store, config, row), query, hash, component) == match what_row_adds(
            row,
            query,
            hash,
            component,
        ) {
            Some(new) if static_entry(store.statics, hash, component) is None => later_entry(
                latest_entry(store, query, hash, component),
                new,
            ),
            _ => latest_entry(store, query, hash, component),
        },
{
    let flag = config.store_insert_ids;
    let own = entity_path_hash(row.entity_path);
    let after = tables_with(store.tables, config, row.times, row, store.insert_id);
    assert forall|j: int| 0 <= j < row.times.len() implies !(#[trigger] table_or_empty(
        store.tables,
        own,
        row.times[j].0,
        row.entity_path,
        flag,
    )).has_row_id(row.row_id) by {}
    crate::store::lemma_tables_with(store.tables, config, row.times, row, store.insert_id);
    lemma_time_on(row.times, query.timeline);
    let path = row.entity_path;
    let before = table_or_empty(store.tables, hash, query.timeline, path, flag);
    lemma_latest_in_table(store.tables, hash, query, path, flag, component);
    lemma_latest_in_table(after, hash, query, path, flag, component);
    match time_on(row.times, query.timeline) {
        Some(time) if hash == own => {
            assert(time.value >= TIME_MIN) by {
                lemma_time_on_temporal(row.times, query.timeline);
            }
            lemma_table_after(
                store.tables,
                config,
                row.times,
                row,
                store.insert_id,
                query.timeline,
                time,
            );
            assert(before.valid()) by {
                reveal(tables_valid);
                crate::store::lemma_empty_table_valid(query.timeline, path, flag);
            }
            lemma_table_with_entries(
                before,
                config.indexed_bucket_num_rows,
                time.value,
                row.row_id,
                store.insert_id,
                row.cells,
                component,
            );
            let entries = entries_in(before.buckets, component);
            lemma_first_entries(before, before.buckets.len() as int, component);
            assert(before.buckets.take(before.buckets.len() as int) =~= before.buckets);
            if let Some(entry) = row_entry(row.cells, time.value, row.row_id, component) {
                lemma_latest_after_insert(entries, entry, query.at.value);
            }
        },
        _ => {
            assert(table_or_empty(after, hash, query.timeline, path, flag) == before);
        },
    }
}

proof fn lemma_time_on_temporal(times: Seq<(Timeline, TimeInt)>, timeline: Timeline)
    requires
        times_temporal(times),
    ensures
        time_on(times, timeline) matches Some(time) ==> time.value >= TIME_MIN,
    decreases times.len(),
{
    if times.len() > 0 {
        let init = times.drop_last();
        assert(times[times.len() - 1].1.value >= TIME_MIN);
        assert forall|i: int| 0 <= i < init.len() implies (#[trigger] init[i]).1.value
            >= TIME_MIN by {
            assert(times[i].1.value >= TIME_MIN);
        }
        lemma_time_on_temporal(init, timeline);
    }
}

/// What is latest in a table that is not there is what is latest in an empty one: nothing.
proof fn lemma_latest_in_table(
    tables: Seq<TableSlot>,
    hash: u64,
    query: LatestAtQuery,
    path: re_log_types::EntityPath,
    flag: bool,
    component: Seq<char>,
)
    ensures
        latest_until(
            entries_in(
                table_or_empty(tables, hash, query.timeline, path, flag).buckets,
                component,
            ),
            query.at.value,
        ) == match slot_index(tables, hash, query.timeline@) {
            Some(i) => latest_until(
                entries_in(tables[i].table.buckets, component),
                query.at.value,
            ),
            None => None::<Entry>,
        },
{
    if slot_index(tables, hash, query.timeline@) is None {
        let table = empty_table(query.timeline, path, flag);
        crate::survival::lemma_entries_one(table.buckets[0], component);
        assert(table.buckets =~= seq![table.buckets[0]]);
        assert(entries_in(table.buckets, component) =~= Seq::empty());
    }
}

// --- Static data.

/// The static cell that stays: the one of the row with the greater id, or the new one.
pub open spec fn newer_static(found: Option<StaticCell>, new: StaticCell) -> StaticCell {
    match found {
        Some(old) => if old.row_id.bits <= new.row_id.bits {
            new
        } else {
            old
        },
        None => new,
    }
}

proof fn lemma_put_static_cell(
    cells: Seq<StaticCell>,
    row_id: RowId,
    cell: DataCell,
    component: Seq<char>,
)
    ensures
        static_cell_of(put_static(cells, row_id, cell), component) == if cell.component_name@
            == component {
            Some(newer_static(static_cell_of(cells, component), StaticCell { row_id, cell }))
        } else {
            static_cell_of(cells, component)
        },
    decreases cells.len(),
{
    let after = put_static(cells, row_id, cell);
    if cells.len() == 0 {
        assert(after.skip(1) =~= cells);
    } else if cells[0].cell.component_name@ == cell.component_name@ {
        if cells[0].row_id.bits <= row_id.bits {
            assert(after.skip(1) =~= cells.skip(1));
        }
    } else {
        lemma_put_static_cell(cells.skip(1), row_id, cell, component);
        assert(after.skip(1) =~= put_static(cells.skip(1), row_id, cell));
    }
}

pub proof fn lemma_cell_of_last(cells: Seq<DataCell>, component: Seq<char>)
    requires
        cells.len() > 0,
    ensures
        cell_of(cells, component) == match cell_of(cells.drop_last(), component) {
            Some(cell) => Some(cell),
            None => if cells.last().component_name@ == component {
                Some(cells.last())
            } else {
                None
            },
        },
    decreases cells.len(),
{
    if cells.len() == 1 {
        assert(cells.skip(1) =~= Seq::empty());
        assert(cells.drop_last() =~= Seq::empty());
    } else {
        assert(cells.skip(1).drop_last() =~= cells.drop_last().skip(1));
        lemma_cell_of_last(cells.skip(1), component);
    }
}

pub proof fn lemma_put_statics_cell(
    cells: Seq<StaticCell>,
    row_id: RowId,
    more: Seq<DataCell>,
    component: Seq<char>,
)
    requires
        crate::row::components_distinct(more),
    ensures
        static_cell_of(put_statics(cells, row_id, more), component) == match cell_of(
            more,
            component,
        ) {
            Some(cell) => Some(
                newer_static(static_cell_of(cells, component), StaticCell { row_id, cell }),
            ),
            None => static_cell_of(cells, component),
        },
    decreases more.len(),
{
    if more.len() > 0 {
        let init = more.drop_last();
        assert(crate::row::components_distinct(init)) by {
            assert forall|i: int, j: int|
                #![trigger init[i], init[j]]
                0 <= i < j < init.len() implies init[i].component_name@
                != init[j].component_name@ by {
                assert(more[i].component_name@ != more[j].component_name@);
            }
        }
        lemma_put_statics_cell(cells, row_id, init, component);
        lemma_put_static_cell(
            put_statics(cells, row_id, init),
            row_id,
            more.last(),
            component,
        );
        lemma_cell_of_last(more, component);
        if more.last().component_name@ == component {
            assert(!crate::row::has_component(init, component)) by {
                assert forall|i: int| 0 <= i < init.len() implies (
                #[trigger] init[i]).component_name@ != component by {
                    assert(more[i].component_name@ != more[more.len() - 1].component_name@);
                }
            }
            crate::bucket::lemma_cell_of_missing(init, component);
        }
    }
}

proof fn lemma_static_index(statics: Seq<crate::store::StaticSlot>, i: int)
    requires
        crate::store::statics_valid(statics),
        0 <= i < statics.len(),
    ensures
        static_index(statics, statics[i].hash) == Some(i),
{
    let j = static_index(statics, statics[i].hash)->0;
    if i < j {
        assert(statics[i].hash != statics[j].hash);
    } else if j < i {
        assert(statics[j].hash != statics[i].hash);
    }
}

/// Law: after static data was added to a store, every query for it finds it, on any timeline and at
/// any time, unless there is static data of a row with a greater id.
pub proof fn law_queries_find_static_data(
    store: StoreView,
    config: DataStoreConfig,
    row: RowView,
    query: LatestAtQuery,
    hash: u64,
    component: Seq<char>,
)
    requires
        crate::store::statics_valid(store.statics),
        crate::row::components_distinct(row.cells),
        row.times.len() == 0,
    ensures
        latest_entry(store_with(store, config, row), query, hash, component) == match cell_of(
            row.cells,
            component,
        ) {
            Some(cell) if hash == entity_path_hash(row.entity_path) => {
                let kept = newer_static(
                    static_entry(store.statics, hash, component),
                    StaticCell { row_id: row.row_id, cell },
                );
                Some(
                    Entry {
                        time: crate::names::TIME_STATIC,
                        row_id: kept.row_id,
                        cell: kept.cell,
                    },
                )
            },
            _ => latest_entry(store, query, hash, component),
        },
{
    let own = entity_path_hash(row.entity_path);
    let after = statics_with(store.statics, row);
    let found = static_index(store.statics, own);
    let old = match found {
        Some(i) => store.statics[i].cells,
        None => Seq::empty(),
    };
    lemma_put_statics_cell(old, row.row_id, row.cells, component);
    let at = match found {
        Some(i) => i,
        None => store.statics.len() as int,
    };
    if let Some(i) = static_index(after, hash) {
        assert(0 <= i < after.len() && after[i].hash == hash);
        if i != at {
            assert(after[i] == store.statics[i]);
            lemma_static_index(store.statics, i);
        }
        if hash == own && i != at {
            if found is Some {
                lemma_static_index(store.statics, at);
            }
            assert(store.statics[i].hash == own);
        }
    }
    assert(after[at].hash == own);
    assert(static_index(after, own) is Some);
    if hash != own {
        match static_index(store.statics, hash) {
            Some(i) => {
                assert(store.statics[i].hash == hash);
                assert(after[i].hash == hash);
                assert(static_index(after, hash) is Some);
            },
            None => {
                if static_index(after, hash) is Some {
                    let i = static_index(after, hash)->0;
                    assert(after[i] == store.statics[i]);
                }
            },
        }
    }
}

// --- Clears.

/// The cell that clears a component.
proof fn lemma_cleared_cell(
    types: Seq<(crate::names::ComponentName, crate::row::DataType)>,
    components: Seq<crate::names::ComponentName>,
    k: int,
)
    requires
        0 <= k < components.len(),
        type_of(types, components[k]@) is Some,
        components_distinct(cleared_cells(types, components)),
    ensures
        cell_of(cleared_cells(types, components), components[k]@) == Some(
            DataCell::empty_spec(components[k], type_of(types, components[k]@)->0),
        ),
    decreases components.len(),
{
    let init = components.drop_last();
    let rest = cleared_cells(types, init);
    let all = cleared_cells(types, components);
    let name = components[k]@;
    assert(components_distinct(rest)) by {
        assert forall|i: int, j: int|
            #![trigger rest[i], rest[j]]
            0 <= i < j < rest.len() implies rest[i].component_name@ != rest[j].component_name@ by {
            assert(all[i].component_name@ != all[j].component_name@);
        }
    }
    if k < components.len() - 1 {
        assert(init[k] == components[k]);
        lemma_cleared_cell(types, init, k);
        if type_of(types, components.last()@) is Some {
            assert(all.drop_last() =~= rest);
            lemma_cell_of_last(all, name);
        }
    } else {
        assert(all.drop_last() =~= rest);
        assert(!crate::row::has_component(rest, name)) by {
            assert forall|i: int| 0 <= i < rest.len() implies (#[trigger] rest[i]).component_name@
                != name by {
                assert(all[i].component_name@ != all[all.len() - 1].component_name@);
            }
        }
        crate::bucket::lemma_cell_of_missing(rest, name);
        lemma_cell_of_last(all, name);
    }
}

/// Law: once an entity was cleared, a query for one of its components finds nothing but an empty
/// cell, unless there is something later than the clear or static data.
pub proof fn law_clears_empty_components(
    at: Cascade,
    config: DataStoreConfig,
    types: Seq<(crate::names::ComponentName, crate::row::DataType)>,
    entity: ClearedEntityView,
    randoms: Seq<u64>,
    query: LatestAtQuery,
    k: int,
)
    requires
        tables_valid(at.store.tables, config.store_insert_ids),
        timelines_distinct(entity.times),
        times_temporal(entity.times),
        time_on(entity.times, query.timeline) matches Some(time) && time.value <= query.at.value,
        0 <= k < entity.components.len(),
        type_of(types, entity.components[k]@) is Some,
        components_distinct(cleared_cells(types, entity.components)),
        static_entry(
            at.store.statics,
            entity_path_hash(entity.entity_path),
            entity.components[k]@,
        ) is None,
        cascade_entity(at, config, types, entity, randoms).diffs.len() > at.diffs.len(),
    ensures
        ({
            let hash = entity_path_hash(entity.entity_path);
            let component = entity.components[k];
            let after = cascade_entity(at, config, types, entity, randoms);
            latest_entry(after.store, query, hash, component@) == later_entry(
                latest_entry(at.store, query, hash, component@),
                Entry {
                    time: time_on(entity.times, query.timeline)->0.value,
                    row_id: after.diffs.last().row_id,
                    cell: DataCell::empty_spec(component, type_of(types, component@)->0),
                },
            )
        }),
{
    let row = RowView {
        row_id: at.row_id,
        times: entity.times,
        entity_path: entity.entity_path,
        cells: cleared_cells(types, entity.components),
    };
    law_retries_change_only_the_counter(
        at.store,
        config,
        row,
        MAX_INSERT_ROW_ATTEMPTS as nat,
        DEFAULT_INSERT_ROW_STEP_SIZE,
        randoms,
    );
    let end = inserted(
        at.store,
        config,
        row,
        MAX_INSERT_ROW_ATTEMPTS as nat,
        DEFAULT_INSERT_ROW_STEP_SIZE,
        randoms,
    );
    assert(end.outcome is Ok);
    let added = end.outcome->Ok_0;
    lemma_cleared_cell(types, entity.components, k);
    assert(entity.times.len() > 0);
    law_queries_find_what_was_written(
        at.store,
        config,
        added,
        query,
        entity_path_hash(entity.entity_path),
        entity.components[k]@,
    );
}

/// Law: once static data of an entity was cleared, every query for it finds an empty cell, unless
/// there is static data of a row with a greater id.
pub proof fn law_static_clears_empty_components(
    at: Cascade,
    config: DataStoreConfig,
    types: Seq<(crate::names::ComponentName, crate::row::DataType)>,
    entity: ClearedEntityView,
    randoms: Seq<u64>,
    query: LatestAtQuery,
    k: int,
)
    requires
        crate::store::statics_valid(at.store.statics),
        entity.times.len() == 0,
        0 <= k < entity.components.len(),
        type_of(types, entity.components[k]@) is Some,
        components_distinct(cleared_cells(types, entity.components)),
        cascade_entity(at, config, types, entity, randoms).diffs.len() > at.diffs.len(),
    ensures
        ({
            let hash = entity_path_hash(entity.entity_path);
            let component = entity.components[k];
            let after = cascade_entity(at, config, types, entity, randoms);
            let kept = newer_static(
                static_entry(at.store.statics, hash, component@),
                StaticCell {
                    row_id: after.diffs.last().row_id,
                    cell: DataCell::empty_spec(component, type_of(types, component@)->0),
                },
            );
            latest_entry(after.store, query, hash, component@) == Some(
                Entry {
                    time: crate::names::TIME_STATIC,
                    row_id: kept.row_id,
                    cell: kept.cell,
                },
            )
        }),
{
    let row = RowView {
        row_id: at.row_id,
        times: entity.times,
        entity_path: entity.entity_path,
        cells: cleared_cells(types, entity.components),
    };
    law_retries_change_only_the_counter(
        at.store,
        config,
        row,
        MAX_INSERT_ROW_ATTEMPTS as nat,
        DEFAULT_INSERT_ROW_STEP_SIZE,
        randoms,
    );
    let end = inserted(
        at.store,
        config,
        row,
        MAX_INSERT_ROW_ATTEMPTS as nat,
        DEFAULT_INSERT_ROW_STEP_SIZE,
        randoms,
    );
    assert(end.outcome is Ok);
    let added = end.outcome->Ok_0;
    lemma_cleared_cell(types, entity.components, k);
    law_queries_find_static_data(
        at.store,
        config,
        added,
        query,
        entity_path_hash(entity.entity_path),
        entity.components[k]@,
    );
}

// --- Rows.

/// What a row holds for a component is what was put there.
proof fn lemma_present_cell(columns: Seq<Seq<char>>, cells: Seq<DataCell>, name: Seq<char>)
    requires
        names_distinct(columns),
    ensures
        cell_of(
            present(Seq::new(columns.len(), |k: int| cell_of(cells, columns[k]))),
            name,
        ) == if columns.contains(name) {
            cell_of(cells, name)
        } else {
            None
        },
    decreases columns.len(),
{
    let slots = Seq::new(columns.len(), |k: int| cell_of(cells, columns[k]));
    let all = present(slots);
    if columns.len() > 0 {
        let init = columns.drop_last();
        let last = columns.last();
        assert(names_distinct(init)) by {
            assert forall|i: int, j: int|
                #![trigger init[i], init[j]]
                0 <= i < j < init.len() implies init[i] != init[j] by {
                assert(columns[i] != columns[j]);
            }
        }
        lemma_present_cell(init, cells, name);
        let rest = Seq::new(init.len(), |k: int| cell_of(cells, init[k]));
        assert(slots.drop_last() =~= rest);
        assert(slots.last() == cell_of(cells, last));
        lemma_cell_of_name(cells, last);
        if slots.last() is Some {
            assert(all.drop_last() =~= present(rest));
            lemma_cell_of_last(all, name);
        }
        if init.contains(name) {
            let k = init.index_of(name);
            assert(columns[k] == name);
            assert(columns[k] != columns[columns.len() - 1]);
        }
        if columns.contains(name) && name != last {
            let k = columns.index_of(name);
            assert(init[k] == name);
        }
        if name == last {
            assert(columns[columns.len() - 1] == name);
        }
    } else {
        assert(all =~= Seq::empty());
    }
}

/// Slots that are empty hold nothing.
proof fn lemma_present_widened(cells: Seq<Option<DataCell>>, added: nat)
    ensures
        present(cells + Seq::new(added, |k: int| None::<DataCell>)) == present(cells),
    decreases added,
{
    let wide = cells + Seq::new(added, |k: int| None::<DataCell>);
    if added == 0 {
        assert(wide =~= cells);
    } else {
        lemma_present_widened(cells, (added - 1) as nat);
        assert(wide.drop_last() =~= cells + Seq::new(
            (added - 1) as nat,
            |k: int| None::<DataCell>,
        ));
        assert(wide.last() is None);
    }
}

/// The row with an id is the only one.
proof fn lemma_row_index(rows: Seq<BucketRow>, i: int)
    requires
        row_ids_distinct(rows),
        0 <= i < rows.len(),
    ensures
        row_index(rows, rows[i].row_id, rows[i].time) == Some(i),
{
    let row = rows[i];
    assert(rows[i].row_id == row.row_id && rows[i].time == row.time);
    let j = choose|j: int|
        0 <= j < rows.len() && (#[trigger] rows[j]).row_id == row.row_id && rows[j].time
            == row.time;
    if i < j {
        assert(rows[i].row_id != rows[j].row_id);
    } else if j < i {
        assert(rows[j].row_id != rows[i].row_id);
    }
}

/// The rows of a bucket that one was added to.
proof fn lemma_bucket_with_rows(
    bucket: BucketView,
    time: i64,
    row_id: RowId,
    insert_id: u64,
    cells: Seq<DataCell>,
)
    requires
        bucket.valid(),
        time >= TIME_MIN,
        forall|i: int| 0 <= i < bucket.rows.len() ==> (#[trigger] bucket.rows[i]).row_id != row_id,
    ensures
        ({
            let rows = bucket_with(bucket, time, row_id, insert_id, cells).rows;
            &&& row_ids_distinct(rows)
            &&& row_index(rows, row_id, time) matches Some(i) && 0 <= i < rows.len() && (forall|
                name: Seq<char>,
            | #[trigger]
                cell_of(present(rows[i].cells), name) == cell_of(cells, name))
            &&& forall|id: RowId, at: i64|
                id != row_id ==> match (
                    #[trigger] row_index(rows, id, at),
                    row_index(bucket.rows, id, at),
                ) {
                    (Some(i), Some(j)) => present(rows[i].cells) == present(bucket.rows[j].cells),
                    (None, None) => true,
                    _ => false,
                }
        }),
{
    let columns = with_columns(bucket.columns, cells);
    let added = (columns.len() - bucket.columns.len()) as nat;
    let after = bucket_with(bucket, time, row_id, insert_id, cells);
    lemma_with_columns(bucket.columns, cells);
    lemma_bucket_with_valid(bucket, time, row_id, insert_id, cells);
    let row = new_bucket_row(
        columns,
        time,
        row_id,
        if bucket.store_insert_ids {
            Some(insert_id)
        } else {
            None
        },
        cells,
    );
    let wide = widened(bucket.rows, added);
    assert(rows_sorted(wide)) by {
        assert forall|i: int, j: int|
            #![trigger wide[i], wide[j]]
            0 <= i < j < wide.len() implies row_before(wide[i], wide[j]) by {
            assert(row_before(bucket.rows[i], bucket.rows[j]));
        }
    }
    assert forall|j: int| 0 <= j < wide.len() implies (#[trigger] wide[j]).row_id
        != row.row_id by {
        assert(bucket.rows[j].row_id != row_id);
    }
    lemma_insert_sorted(wide, row);
    let rows = after.rows;
    assert(rows.contains(row));
    let i = rows.index_of(row);
    lemma_row_index(rows, i);
    assert forall|name: Seq<char>| #[trigger]
        cell_of(present(rows[i].cells), name) == cell_of(cells, name) by {
        lemma_present_cell(columns, cells, name);
        lemma_with_columns_contains(bucket.columns, cells, name);
        if !columns.contains(name) {
            lemma_cell_of_missing(cells, name);
        }
    }
    assert forall|id: RowId, at: i64| id != row_id implies match (
        #[trigger] row_index(rows, id, at),
        row_index(bucket.rows, id, at),
    ) {
        (Some(i), Some(j)) => present(rows[i].cells) == present(bucket.rows[j].cells),
        (None, None) => true,
        _ => false,
    } by {
        if let Some(j) = row_index(bucket.rows, id, at) {
            let x = widened_row(bucket.rows[j], added);
            assert(wide[j] == x);
            assert(wide.contains(x));
            assert(rows.contains(x));
            lemma_row_index(rows, rows.index_of(x));
            lemma_present_widened(bucket.rows[j].cells, added);
        } else if let Some(i) = row_index(rows, id, at) {
            assert(rows.contains(rows[i]));
            assert(wide.contains(rows[i]));
            let j = wide.index_of(rows[i]);
            assert(bucket.rows[j].row_id == id && bucket.rows[j].time == at);
        }
    }
}

/// A row that was just added to a table is found there again.
proof fn lemma_table_gives_back(
    table: TableView,
    bucket_num_rows: u64,
    time: i64,
    row_id: RowId,
    insert_id: u64,
    cells: Seq<DataCell>,
)
    requires
        table.valid(),
        time >= TIME_MIN,
        !table.has_row_id(row_id),
    ensures
        cells_in_table(
            table_with(table, bucket_num_rows, time, row_id, insert_id, cells),
            row_id,
            time,
        ) matches Some(found) && (forall|name: Seq<char>| #[trigger]
            cell_of(found, name) == cell_of(cells, name)),
{
    let out = table_with(table, bucket_num_rows, time, row_id, insert_id, cells);
    lemma_table_with_valid(table, bucket_num_rows, time, row_id, insert_id, cells);
    reveal(TableView::valid);
    let b = bucket_of(table.buckets, time);
    lemma_bucket_of(table.buckets, time);
    lemma_bucket_of(out.buckets, time);
    let opens = opens_bucket(table, bucket_num_rows, time);
    let at = if opens {
        table.buckets.len() as int
    } else {
        b
    };
    let base = if opens {
        empty_bucket(table.store_insert_ids)
    } else {
        table.buckets[b].bucket
    };
    let found = bucket_of(out.buckets, time);
    assert(found == at) by {
        if found < at {
            assert(out.buckets[at].start > time);
        }
        if at < found {
            assert(out.buckets[found].start == table.buckets[found].start);
            assert(table.buckets[found].start > time);
        }
    }
    assert(base.valid()) by {
        assert(table.buckets[b].bucket.valid());
    }
    assert forall|i: int| 0 <= i < base.rows.len() implies (#[trigger] base.rows[i]).row_id
        != row_id by {
        assert(table.buckets[b].bucket.rows[i].row_id != row_id);
    }
    lemma_bucket_with_rows(base, time, row_id, insert_id, cells);
}

/// A row that is added to a table leaves all others as they are.
proof fn lemma_table_keeps(
    table: TableView,
    bucket_num_rows: u64,
    time: i64,
    row_id: RowId,
    insert_id: u64,
    cells: Seq<DataCell>,
    other: RowId,
    at: i64,
)
    requires
        table.valid(),
        time >= TIME_MIN,
        at >= TIME_MIN,
        !table.has_row_id(row_id),
        other != row_id,
    ensures
        cells_in_table(
            table_with(table, bucket_num_rows, time, row_id, insert_id, cells),
            other,
            at,
        ) == cells_in_table(table, other, at),
{
    let out = table_with(table, bucket_num_rows, time, row_id, insert_id, cells);
    lemma_table_with_valid(table, bucket_num_rows, time, row_id, insert_id, cells);
    reveal(TableView::valid);
    let all = table.buckets;
    let b = bucket_of(all, time);
    lemma_bucket_of(all, time);
    lemma_bucket_of(all, at);
    lemma_bucket_of(out.buckets, at);
    let opens = opens_bucket(table, bucket_num_rows, time);
    let before = bucket_of(all, at);
    let after = bucket_of(out.buckets, at);
    let base = if opens {
        empty_bucket(table.store_insert_ids)
    } else {
        all[b].bucket
    };
    assert(base.valid()) by {
        assert(all[b].bucket.valid());
    }
    assert forall|i: int| 0 <= i < base.rows.len() implies (#[trigger] base.rows[i]).row_id
        != row_id by {
        assert(all[b].bucket.rows[i].row_id != row_id);
    }
    lemma_bucket_with_rows(base, time, row_id, insert_id, cells);
    if opens && after == all.len() {
        // The new bucket has taken over: nothing there before was that late.
        let grown = out.buckets[after].bucket;
        assert(row_index(base.rows, other, at) is None);
        assert(row_index(grown.rows, other, at) is None);
        let last = all[b].bucket;
        assert(before == b) by {
            if before < b {
                assert(all[b].start > at);
            }
        }
        if let Some(i) = row_index(last.rows, other, at) {
            assert(last.valid());
            if i < last.rows.len() - 1 {
                assert(row_before(last.rows[i], last.rows[last.rows.len() - 1]));
            }
        }
    } else {
        assert(before == after) by {
            if before < after {
                assert(out.buckets[after].start == all[after].start);
                assert(all[after].start > at);
            }
            if after < before {
                assert(out.buckets[before].start == all[before].start);
                assert(out.buckets[before].start > at);
            }
        }
        if before == b && !opens {
            assert(out.buckets[b].bucket == bucket_with(base, time, row_id, insert_id, cells));
            match (
                row_index(out.buckets[b].bucket.rows, other, at),
                row_index(base.rows, other, at),
            ) {
                (Some(i), Some(j)) => {},
                (None, None) => {},
                _ => {},
            }
        } else {
            assert(out.buckets[before].bucket == all[before].bucket);
        }
    }
}

/// The cells of a row of an entity on a timeline, if the row is there.
pub open spec fn cells_found(
    tables: Seq<TableSlot>,
    hash: u64,
    timeline: Timeline,
    row_id: RowId,
    time: i64,
) -> Option<Seq<DataCell>> {
    match slot_index(tables, hash, timeline@) {
        Some(i) => cells_in_table(tables[i].table, row_id, time),
        None => None,
    }
}

proof fn lemma_cells_found(
    tables: Seq<TableSlot>,
    hash: u64,
    timeline: Timeline,
    path: re_log_types::EntityPath,
    flag: bool,
    row_id: RowId,
    time: i64,
)
    ensures
        cells_found(tables, hash, timeline, row_id, time) == cells_in_table(
            table_or_empty(tables, hash, timeline, path, flag),
            row_id,
            time,
        ),
{
    let empty = empty_table(timeline, path, flag);
    assert(empty.buckets[0].bucket.rows.len() == 0);
    assert(row_index(empty.buckets[0].bucket.rows, row_id, time) is None);
}

/// The table of a row, once it was added, gives it back; and other rows as they were.
proof fn lemma_found_after(
    store: StoreView,
    config: DataStoreConfig,
    row: RowView,
    hash: u64,
    timeline: Timeline,
    row_id: RowId,
    time: TimeInt,
)
    requires
        tables_valid(store.tables, config.store_insert_ids),
        timelines_distinct(row.times),
        times_temporal(row.times),
        !in_use(store, config, row),
        time.value >= TIME_MIN,
    ensures
        ({
            let after = store_with(store, config, row).tables;
            &&& row_id == row.row_id && hash == entity_path_hash(row.entity_path) && time_on(
                row.times,
                timeline,
            ) == Some(time) ==> (cells_found(after, hash, timeline, row_id, time.value) matches Some(
                found,
            ) && (forall|name: Seq<char>| #[trigger]
                cell_of(found, name) == cell_of(row.cells, name)))
            &&& row_id != row.row_id ==> cells_found(after, hash, timeline, row_id, time.value)
                == cells_found(store.tables, hash, timeline, row_id, time.value)
        }),
{
    let flag = config.store_insert_ids;
    let own = entity_path_hash(row.entity_path);
    let path = row.entity_path;
    let after = tables_with(store.tables, config, row.times, row, store.insert_id);
    assert forall|j: int| 0 <= j < row.times.len() implies !(#[trigger] table_or_empty(
        store.tables,
        own,
        row.times[j].0,
        row.entity_path,
        flag,
    )).has_row_id(row.row_id) by {}
    crate::store::lemma_tables_with(store.tables, config, row.times, row, store.insert_id);
    lemma_time_on(row.times, timeline);
    let before = table_or_empty(store.tables, hash, timeline, path, flag);
    lemma_cells_found(store.tables, hash, timeline, path, flag, row_id, time.value);
    lemma_cells_found(after, hash, timeline, path, flag, row_id, time.value);
    match time_on(row.times, timeline) {
        Some(at) if hash == own => {
            lemma_time_on_temporal(row.times, timeline);
            lemma_table_after(
                store.tables,
                config,
                row.times,
                row,
                store.insert_id,
                timeline,
                at,
            );
            assert(before.valid()) by {
                reveal(tables_valid);
                crate::store::lemma_empty_table_valid(timeline, path, flag);
            }
            let n = config.indexed_bucket_num_rows;
            assert(!before.has_row_id(row.row_id)) by {
                let j = choose|j: int|
                    0 <= j < row.times.len() && (#[trigger] row.times[j]).0@ == timeline@;
                let same = table_or_empty(store.tables, own, row.times[j].0, path, flag);
                assert(!same.has_row_id(row.row_id));
                assert(same.buckets == before.buckets);
            }
            lemma_table_gives_back(
                before,
                n,
                at.value,
                row.row_id,
                store.insert_id,
                row.cells,
            );
            if row_id != row.row_id {
                lemma_table_keeps(
                    before,
                    n,
                    at.value,
                    row.row_id,
                    store.insert_id,
                    row.cells,
                    row_id,
                    time.value,
                );
            }
        },
        _ => {
            assert(table_or_empty(after, hash, timeline, path, flag) == before);
        },
    }
}

/// Law: a row that was just added is found again with all its times and all its cells.
pub proof fn law_rows_are_given_back(store: StoreView, config: DataStoreConfig, row: RowView)
    requires
        tables_valid(store.tables, config.store_insert_ids),
        timelines_distinct(row.times),
        times_temporal(row.times),
        row.times.len() > 0,
        !in_use(store, config, row),
    ensures
        ({
            let hash = entity_path_hash(row.entity_path);
            let found = find_row(
                store_with(store, config, row),
                RowMeta { row_id: row.row_id, times: row.times, hash },
                row.times,
            );
            &&& found.times == row.times
            &&& found.cells matches Some(cells) && (forall|name: Seq<char>| #[trigger]
                cell_of(cells, name) == cell_of(row.cells, name))
        }),
{
    lemma_rows_given_back_up_to(store, config, row, row.times.len() as int);
    assert(row.times.take(row.times.len() as int) =~= row.times);
}

proof fn lemma_rows_given_back_up_to(
    store: StoreView,
    config: DataStoreConfig,
    row: RowView,
    n: int,
)
    requires
        tables_valid(store.tables, config.store_insert_ids),
        timelines_distinct(row.times),
        times_temporal(row.times),
        0 <= n <= row.times.len(),
        !in_use(store, config, row),
    ensures
        ({
            let hash = entity_path_hash(row.entity_path);
            let found = find_row(
                store_with(store, config, row),
                RowMeta { row_id: row.row_id, times: row.times, hash },
                row.times.take(n),
            );
            &&& found.times == row.times.take(n)
            &&& n == 0 ==> found.cells is None
            &&& n > 0 ==> (found.cells matches Some(cells) && (forall|name: Seq<char>| #[trigger]
                cell_of(cells, name) == cell_of(row.cells, name)))
        }),
    decreases n,
{
    if n > 0 {
        let hash = entity_path_hash(row.entity_path);
        let after = store_with(store, config, row);
        lemma_rows_given_back_up_to(store, config, row, n - 1);
        let some = row.times.take(n);
        assert(some.drop_last() =~= row.times.take(n - 1));
        let (timeline, time) = row.times[n - 1];
        assert(some.last() == row.times[n - 1]);
        lemma_time_on_at(row.times, n - 1);
        lemma_found_after(store, config, row, hash, timeline, row.row_id, time);
        assert(cells_found(after.tables, hash, timeline, row.row_id, time.value) is Some);
        assert(some =~= row.times.take(n - 1).push((timeline, time)));
    }
}

proof fn lemma_time_on_at(times: Seq<(Timeline, TimeInt)>, k: int)
    requires
        timelines_distinct(times),
        0 <= k < times.len(),
    ensures
        time_on(times, times[k].0) == Some(times[k].1),
    decreases times.len(),
{
    if k < times.len() - 1 {
        let init = times.drop_last();
        assert(times[k].0@ != times[times.len() - 1].0@);
        assert(timelines_distinct(init)) by {
            assert forall|i: int, j: int|
                #![trigger init[i], init[j]]
                0 <= i < j < init.len() implies init[i].0@ != init[j].0@ by {
                assert(times[i].0@ != times[j].0@);
            }
        }
        lemma_time_on_at(init, k);
    }
}

/// Law: rows that are added leave those that were there as they are.
pub proof fn law_rows_stay_as_they_are(
    store: StoreView,
    config: DataStoreConfig,
    row: RowView,
    other: RowMeta,
    times: Seq<(Timeline, TimeInt)>,
)
    requires
        tables_valid(store.tables, config.store_insert_ids),
        timelines_distinct(row.times),
        times_temporal(row.times),
        !in_use(store, config, row),
        other.row_id != row.row_id,
        times_temporal(times),
    ensures
        find_row(store_with(store, config, row), other, times) == find_row(store, other, times),
    decreases times.len(),
{
    if times.len() > 0 {
        let init = times.drop_last();
        assert(times_temporal(init)) by {
            assert forall|i: int| 0 <= i < init.len() implies (#[trigger] init[i]).1.value
                >= TIME_MIN by {
                assert(times[i].1.value >= TIME_MIN);
            }
        }
        law_rows_stay_as_they_are(store, config, row, other, init);
        let (timeline, time) = times.last();
        assert(times[times.len() - 1].1.value >= TIME_MIN);
        lemma_found_after(store, config, row, other.hash, timeline, other.row_id, time);
        let after = store_with(store, config, row);
        assert(cells_found(after.tables, other.hash, timeline, other.row_id, time.value)
            == cells_found(store.tables, other.hash, timeline, other.row_id, time.value));
    }
}

} // verus!

//! Which rows a collection keeps: those with one of the latest cells of some component.
use crate::bucket::BucketView;
use crate::entries::{column_entries, entries_in, entries_in_bucket, last_row_ids, Entry};
use crate::gc::{collected, GarbageCollectionOptions};
use crate::names::{ComponentName, RowId};
use crate::progress::{
    gone, gone_at, law_collections_add_nothing, law_everything_unprotected_goes, protected_by,
    sweep_of, time_ran_out,
};
use crate::protect::protects;
use crate::readback::{entries_sorted, entry_before, lemma_first_entries};
use crate::reports::{is_registered_at, rows_registered};
use crate::sorting::BucketRow;
use crate::store::{is_table_of, registry_valid, tables_valid, StoreView, TableSlot};
use crate::survival::{
    is_cell_of, is_entry_of, law_protected_rows_stay, lemma_entry_cells,
};
use crate::table::{TableBucket, TableView};
use vstd::prelude::*;

verus! {

/// Whether a row comes after a time and row id: by time, and at the same time by row id.
pub open spec fn comes_after(row: BucketRow, time: i64, row_id: RowId) -> bool {
    row.time > time || (row.time == time && row.row_id.bits > row_id.bits)
}

/// How many of some rows have a cell in a column and come after a time and row id.
pub open spec fn num_later_rows(
    rows: Seq<BucketRow>,
    column: int,
    time: i64,
    row_id: RowId,
) -> nat
    decreases rows.len(),
{
    if rows.len() == 0 {
        0
    } else {
        num_later_rows(rows.drop_last(), column, time, row_id) + if rows.last().cells[column] is Some
            && comes_after(rows.last(), time, row_id) {
            1nat
        } else {
            0nat
        }
    }
}

/// How many cells of a component some buckets have after a time and row id.
pub open spec fn num_later_cells(
    buckets: Seq<TableBucket>,
    component: Seq<char>,
    time: i64,
    row_id: RowId,
) -> nat
    decreases buckets.len(),
{
    if buckets.len() == 0 {
        0
    } else {
        let bucket = buckets.last().bucket;
        num_later_cells(buckets.drop_last(), component, time, row_id) + if bucket.columns.contains(
            component,
        ) {
            num_later_rows(bucket.rows, bucket.columns.index_of(component), time, row_id)
        } else {
            0
        }
    }
}

/// Whether a row of a bucket has a cell of a component.
pub open spec fn has_cell(bucket: BucketView, i: int, component: Seq<char>) -> bool {
    exists|c: int|
        0 <= c < bucket.columns.len() && bucket.columns[c] == component
            && #[trigger] bucket.rows[i].cells[c] is Some
}

/// Whether a row has a cell of a component after which a table has fewer than `count` others.
pub open spec fn has_late_cell(
    table: TableView,
    component: Seq<char>,
    count: nat,
    row_id: RowId,
) -> bool {
    exists|b: int, i: int|
        {
            &&& 0 <= b < table.buckets.len()
            &&& 0 <= i < table.buckets[b].bucket.rows.len()
            &&& (#[trigger] table.buckets[b].bucket.rows[i]).row_id == row_id
            &&& has_cell(table.buckets[b].bucket, i, component)
            &&& num_later_cells(
                table.buckets,
                component,
                table.buckets[b].bucket.rows[i].time,
                row_id,
            ) < count
        }
}

/// Whether there is a table, and a component other than some, of which a row has one of the latest
/// cells.
pub open spec fn is_to_be_kept(
    tables: Seq<TableSlot>,
    count: nat,
    dont_protect: Seq<ComponentName>,
    row_id: RowId,
) -> bool {
    exists|t: int, component: Seq<char>|
        {
            &&& 0 <= t < tables.len()
            &&& forall|j: int|
                0 <= j < dont_protect.len() ==> (#[trigger] dont_protect[j])@ != component
            &&& #[trigger] has_late_cell(tables[t].table, component, count, row_id)
        }
}

// --- How many cells come after one.

spec fn num_after(entries: Seq<Entry>, time: i64, row_id: RowId) -> nat
    decreases entries.len(),
{
    if entries.len() == 0 {
        0
    } else {
        num_after(entries.drop_last(), time, row_id) + if is_after(entries.last(), time, row_id) {
            1nat
        } else {
            0nat
        }
    }
}

spec fn is_after(entry: Entry, time: i64, row_id: RowId) -> bool {
    entry.time > time || (entry.time == time && entry.row_id.bits > row_id.bits)
}

proof fn lemma_num_after_concat(a: Seq<Entry>, b: Seq<Entry>, time: i64, row_id: RowId)
    ensures
        num_after(a + b, time, row_id) == num_after(a, time, row_id) + num_after(b, time, row_id),
    decreases b.len(),
{
    if b.len() == 0 {
        assert(a + b =~= a);
    } else {
        lemma_num_after_concat(a, b.drop_last(), time, row_id);
        assert((a + b).drop_last() =~= a + b.drop_last());
        assert((a + b).last() == b.last());
    }
}

proof fn lemma_num_later_rows(rows: Seq<BucketRow>, column: int, time: i64, row_id: RowId)
    ensures
        num_later_rows(rows, column, time, row_id) == num_after(
            column_entries(rows, column),
            time,
            row_id,
        ),
    decreases rows.len(),
{
    if rows.len() > 0 {
        lemma_num_later_rows(rows.drop_last(), column, time, row_id);
        let rest = column_entries(rows.drop_last(), column);
        if rows.last().cells[column] is Some {
            assert(column_entries(rows, column).drop_last() =~= rest);
        }
    }
}

proof fn lemma_num_later_cells(
    buckets: Seq<TableBucket>,
    component: Seq<char>,
    time: i64,
    row_id: RowId,
)
    ensures
        num_later_cells(buckets, component, time, row_id) == num_after(
            entries_in(buckets, component),
            time,
            row_id,
        ),
    decreases buckets.len(),
{
    if buckets.len() > 0 {
        let init = buckets.drop_last();
        let bucket = buckets.last().bucket;
        lemma_num_later_cells(init, component, time, row_id);
        lemma_num_after_concat(
            entries_in(init, component),
            entries_in_bucket(bucket, component),
            time,
            row_id,
        );
        if bucket.columns.contains(component) {
            lemma_num_later_rows(
                bucket.rows,
                bucket.columns.index_of(component),
                time,
                row_id,
            );
        }
    }
}

/// In order, those after the `k`-th are those behind it.
proof fn lemma_num_after_sorted(entries: Seq<Entry>, k: int, time: i64, row_id: RowId)
    requires
        entries_sorted(entries),
        0 <= k < entries.len(),
        entries[k].time == time,
        entries[k].row_id == row_id,
    ensures
        num_after(entries, time, row_id) == entries.len() - 1 - k,
    decreases entries.len(),
{
    let init = entries.drop_last();
    let n = init.len() as int;
    assert(entries_sorted(init)) by {
        assert forall|i: int, j: int|
            #![trigger init[i], init[j]]
            0 <= i < j < init.len() implies entry_before(init[i], init[j]) by {
            assert(entry_before(entries[i], entries[j]));
        }
    }
    if k < n {
        assert(entry_before(entries[k], entries[n]));
        lemma_num_after_sorted(init, k, time, row_id);
    } else {
        lemma_none_after(init, entries[n]);
    }
}

proof fn lemma_none_after(entries: Seq<Entry>, last: Entry)
    requires
        forall|i: int| 0 <= i < entries.len() ==> entry_before(#[trigger] entries[i], last),
    ensures
        num_after(entries, last.time, last.row_id) == 0,
    decreases entries.len(),
{
    if entries.len() > 0 {
        let init = entries.drop_last();
        assert forall|i: int| 0 <= i < init.len() implies entry_before(
            #[trigger] init[i],
            last,
        ) by {
            assert(entry_before(entries[i], last));
        }
        assert(entry_before(entries[entries.len() - 1], last));
        lemma_none_after(init, last);
    }
}

/// Where the cell of a row is among all cells of its component.
proof fn lemma_entry_of_row(rows: Seq<BucketRow>, column: int, i: int) -> (k: int)
    requires
        0 <= i < rows.len(),
        rows[i].cells[column] is Some,
    ensures
        0 <= k < column_entries(rows, column).len(),
        column_entries(rows, column)[k].time == rows[i].time,
        column_entries(rows, column)[k].row_id == rows[i].row_id,
    decreases rows.len(),
{
    if i < rows.len() - 1 {
        lemma_entry_of_row(rows.drop_last(), column, i)
    } else {
        column_entries(rows.drop_last(), column).len() as int
    }
}

proof fn lemma_entry_of_cell(buckets: Seq<TableBucket>, component: Seq<char>, b: int, i: int)
    -> (k: int)
    requires
        0 <= b < buckets.len(),
        0 <= i < buckets[b].bucket.rows.len(),
        buckets[b].bucket.columns.contains(component),
        buckets[b].bucket.rows[i].cells[buckets[b].bucket.columns.index_of(component)] is Some,
    ensures
        0 <= k < entries_in(buckets, component).len(),
        entries_in(buckets, component)[k].time == buckets[b].bucket.rows[i].time,
        entries_in(buckets, component)[k].row_id == buckets[b].bucket.rows[i].row_id,
    decreases buckets.len(),
{
    let init = buckets.drop_last();
    if b < init.len() {
        lemma_entry_of_cell(init, component, b, i)
    } else {
        let bucket = buckets.last().bucket;
        let k = lemma_entry_of_row(bucket.rows, bucket.columns.index_of(component), i);
        entries_in(init, component).len() + k
    }
}

/// The rows of the last cells of a component are those with fewer than that many cells after them.
proof fn lemma_late_cells(table: TableView, component: Seq<char>, count: nat, row_id: RowId)
    requires
        table.valid(),
    ensures
        last_row_ids(entries_in(table.buckets, component), count).contains(row_id.bits)
            == has_late_cell(table, component, count, row_id),
{
    let entries = entries_in(table.buckets, component);
    let n = table.buckets.len() as int;
    lemma_first_entries(table, n, component);
    assert(table.buckets.take(n) =~= table.buckets);
    if last_row_ids(entries, count).contains(row_id.bits) {
        let k = choose|k: int|
            0 <= k < entries.len() && entries.len() - count <= k && (
            #[trigger] entries[k]).row_id.bits == row_id.bits;
        lemma_entry_cells(table.buckets, component, k);
        let b = choose|b: int|
            0 <= b < n && is_entry_of(
                (#[trigger] table.buckets[b]).bucket,
                component,
                entries[k],
            );
        let bucket = table.buckets[b].bucket;
        let c = bucket.columns.index_of(component);
        assert(is_cell_of(bucket.rows, c, entries[k]));
        let i = choose|i: int|
            0 <= i < bucket.rows.len() && (#[trigger] bucket.rows[i]).cells[c] == Some(
                entries[k].cell,
            ) && bucket.rows[i].time == entries[k].time && bucket.rows[i].row_id
                == entries[k].row_id;
        assert(table.buckets[b].bucket.rows[i].row_id == row_id);
        assert(bucket.rows[i].cells[c] is Some);
        lemma_num_later_cells(table.buckets, component, entries[k].time, row_id);
        lemma_num_after_sorted(entries, k, entries[k].time, row_id);
    }
    if has_late_cell(table, component, count, row_id) {
        let (b, i) = choose|b: int, i: int|
            {
                &&& 0 <= b < table.buckets.len()
                &&& 0 <= i < table.buckets[b].bucket.rows.len()
                &&& (#[trigger] table.buckets[b].bucket.rows[i]).row_id == row_id
                &&& has_cell(table.buckets[b].bucket, i, component)
                &&& num_later_cells(
                    table.buckets,
                    component,
                    table.buckets[b].bucket.rows[i].time,
                    row_id,
                ) < count
            };
        let bucket = table.buckets[b].bucket;
        let c = choose|c: int|
            0 <= c < bucket.columns.len() && bucket.columns[c] == component
                && #[trigger] bucket.rows[i].cells[c] is Some;
        assert(bucket.columns.index_of(component) == c) by {
            reveal(TableView::valid);
            assert(table.buckets[b].bucket.valid());
            let d = bucket.columns.index_of(component);
            assert(bucket.columns[c] == component);
            if c < d {
                assert(bucket.columns[c] != bucket.columns[d]);
            } else if d < c {
                assert(bucket.columns[d] != bucket.columns[c]);
            }
        }
        let k = lemma_entry_of_cell(table.buckets, component, b, i);
        lemma_num_later_cells(table.buckets, component, entries[k].time, row_id);
        lemma_num_after_sorted(entries, k, entries[k].time, row_id);
        assert(entries[k].row_id.bits == row_id.bits);
    }
}

// --- What is kept.

/// Law: exactly those rows are protected that have, in some table, a cell of a component that is to
/// be protected with fewer than as many cells of the same component after it as are to be
/// protected.
pub proof fn law_protected_are_the_latest(
    store: StoreView,
    store_insert_ids: bool,
    options: GarbageCollectionOptions,
    row_id: RowId,
)
    requires
        tables_valid(store.tables, store_insert_ids),
    ensures
        protected_by(store, options).contains(row_id.bits) <==> is_to_be_kept(
            store.tables,
            options.protect_latest as nat,
            options.dont_protect@,
            row_id,
        ),
{
    let tables = store.tables;
    let count = options.protect_latest as nat;
    let dont_protect = options.dont_protect@;
    if protected_by(store, options).contains(row_id.bits) {
        let (t, k) = choose|t: int, k: int|
            0 <= t < tables.len() && #[trigger] protects(
                tables[t].table,
                count,
                dont_protect,
                k,
                row_id.bits,
            );
        let component = tables[t].table.all_components[k];
        crate::gc::lemma_table_of_valid(tables, store_insert_ids, t);
        lemma_late_cells(tables[t].table, component, count, row_id);
        assert(has_late_cell(tables[t].table, component, count, row_id));
    }
    if is_to_be_kept(tables, count, dont_protect, row_id) {
        let (t, component) = choose|t: int, component: Seq<char>|
            {
                &&& 0 <= t < tables.len()
                &&& forall|j: int|
                    0 <= j < dont_protect.len() ==> (#[trigger] dont_protect[j])@ != component
                &&& #[trigger] has_late_cell(tables[t].table, component, count, row_id)
            };
        let table = tables[t].table;
        crate::gc::lemma_table_of_valid(tables, store_insert_ids, t);
        lemma_late_cells(table, component, count, row_id);
        let entries = entries_in(table.buckets, component);
        let i = choose|i: int|
            0 <= i < entries.len() && entries.len() - count <= i && (
            #[trigger] entries[i]).row_id.bits == row_id.bits;
        lemma_entry_cells(table.buckets, component, i);
        let b = choose|b: int|
            0 <= b < table.buckets.len() && is_entry_of(
                (#[trigger] table.buckets[b]).bucket,
                component,
                entries[i],
            );
        let c = table.buckets[b].bucket.columns.index_of(component);
        assert(table.all_components.contains(component)) by {
            reveal(TableView::valid);
            assert(table.buckets[b].bucket.columns[c] == component);
        }
        let k = table.all_components.index_of(component);
        assert(protects(tables[t].table, count, dont_protect, k, row_id.bits));
    }
}

/// Law: a collection of everything for which there is enough time leaves exactly those rows that
/// have one of the latest cells of some component. This is if tables without data are not purged.
pub proof fn law_only_the_latest_are_left(
    store: StoreView,
    store_insert_ids: bool,
    bucket_num_rows: u64,
    options: GarbageCollectionOptions,
    time_is_up: spec_fn(int) -> bool,
    t: int,
    row_id: RowId,
    time: i64,
)
    requires
        tables_valid(store.tables, store_insert_ids),
        registry_valid(store.registry),
        rows_registered(store),
        options.target is Everything,
        !options.purge_empty_tables,
        !time_ran_out(time_is_up),
        0 <= t < store.tables.len(),
    ensures
        ({
            let after = collected(store, bucket_num_rows, options, time_is_up).store;
            &&& after.tables.len() == store.tables.len()
            &&& after.tables[t].hash == store.tables[t].hash
            &&& after.tables[t].table.timeline == store.tables[t].table.timeline
            &&& after.tables[t].table.has_row(row_id, time) <==> store.tables[t].table.has_row(
                row_id,
                time,
            ) && is_to_be_kept(
                store.tables,
                options.protect_latest as nat,
                options.dont_protect@,
                row_id,
            )
        }),
{
    let end = sweep_of(store, bucket_num_rows, options, time_is_up);
    let after = collected(store, bucket_num_rows, options, time_is_up).store;
    assert(after.tables == end.tables);
    law_protected_are_the_latest(store, store_insert_ids, options, row_id);
    law_protected_rows_stay(store, store_insert_ids, bucket_num_rows, options, time_is_up);
    law_collections_add_nothing(store, store_insert_ids, bucket_num_rows, options, time_is_up);
    assert(end.tables[t].hash == store.tables[t].hash);
    if end.tables[t].table.has_row(row_id, time) {
        assert(store.tables[t].table.has_row(row_id, time));
        assert(is_registered_at(store.registry, store.tables[t], row_id, time));
        let (k, j) = choose|k: int, j: int|
            0 <= k < store.registry.len() && store.registry[k].row_id == row_id
                && store.registry[k].hash == store.tables[t].hash && 0 <= j
                < store.registry[k].times.len() && (#[trigger] store.registry[k].times[j]).0@
                == store.tables[t].table.timeline@ && store.registry[k].times[j].1.value == time;
        let row = store.registry[k];
        if !protected_by(store, options).contains(row_id.bits) {
            law_everything_unprotected_goes(
                store,
                store_insert_ids,
                bucket_num_rows,
                options,
                time_is_up,
                k,
            );
            assert(gone(end.tables, row));
            assert(gone_at(end.tables, row, row.times[j]));
            assert(is_table_of(end.tables[t], row.hash, row.times[j].0@));
        }
    }
}

/// The ids of the rows that have one of the latest cells of a component in a table.
pub open spec fn late_ids(table: TableView, component: Seq<char>, count: nat) -> Set<u128> {
    Set::new(|bits: u128| has_late_cell(table, component, count, RowId { bits }))
}

/// Law: a table has no more rows with one of the latest cells of a component than asked for.
pub proof fn law_no_more_are_protected_than_asked_for(
    table: TableView,
    component: Seq<char>,
    count: nat,
)
    requires
        table.valid(),
    ensures
        late_ids(table, component, count).finite(),
        late_ids(table, component, count).len() <= count,
{
    let entries = entries_in(table.buckets, component);
    let from = if entries.len() > count {
        entries.len() - count
    } else {
        0
    };
    let ids = Seq::new((entries.len() - from) as nat, |i: int| entries[from + i].row_id.bits);
    let late = late_ids(table, component, count);
    assert forall|bits: u128| late.contains(bits) implies ids.to_set().contains(bits) by {
        lemma_late_cells(table, component, count, RowId { bits });
        let i = choose|i: int|
            0 <= i < entries.len() && entries.len() - count <= i && (
            #[trigger] entries[i]).row_id.bits == bits;
        assert(ids[i - from] == bits);
        assert(ids.contains(bits));
    }
    vstd::seq_lib::seq_to_set_is_finite(ids);
    ids.lemma_cardinality_of_set();
    assert(late.subset_of(ids.to_set()));
    vstd::set_lib::lemma_len_subset(late, ids.to_set());
}

} // verus!

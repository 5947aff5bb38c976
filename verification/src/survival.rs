//! What a collection leaves alone: the latest cells of each component.
use crate::bucket::{bucket_without, row_index, BucketView};
use crate::entries::{
    column_entries, entries_in, entries_in_bucket, last_row_ids, latest_until, Entry,
};
use crate::gc::{
    batch_size_of, budget_of, collected, drop_buckets, drop_row_at_times, drop_rows, merge_diffs,
    spent, sweep_batch, sweep_rows, swept, GarbageCollectionOptions, Sweep, SweepRules,
};
use crate::names::{names_contain, ComponentName, RowId, TimeInt, Timeline, TIME_MAX, TIME_MIN};
use crate::progress::{lemma_diff_index, protected_by, sweep_of};
use crate::protect::{
    bucket_has_data, holds_instances, protected_rows, protects, purge_spec, table_has_data,
};
use crate::row::DiffView;
use crate::sorting::BucketRow;
use crate::store::{
    is_table_of, latest_entry, registry_valid, slot_index, tables_valid, LatestAtQuery, RowMeta, StoreView,
    TableSlot,
};
use crate::table::{
    bucket_diffs, bucket_of, drop_buckets_spec, drop_row_spec, droppable, droppable_buckets,
    kept_buckets, rekeyed, TableBucket, TableView,
};
use re_log_types::EntityPath;
use vstd::prelude::*;

verus! {

/// Whether the rows of the last `n` entries are all protected.
pub open spec fn tail_protected(entries: Seq<Entry>, n: int, protected: Set<u128>) -> bool {
    forall|i: int|
        entries.len() - n <= i < entries.len() && 0 <= i ==> protected.contains(
            (#[trigger] entries[i]).row_id.bits,
        )
}

/// Whether some entries are left of others, and among them the last ones as far as their rows are
/// protected.
pub open spec fn keeps_tail(before: Seq<Entry>, after: Seq<Entry>, protected: Set<u128>) -> bool {
    &&& after.len() <= before.len()
    &&& forall|n: int|
        0 <= n <= before.len() && #[trigger] tail_protected(before, n, protected) ==> n
            <= after.len() && after.skip(after.len() - n) == before.skip(before.len() - n)
}

proof fn lemma_keeps_tail_trans(
    a: Seq<Entry>,
    b: Seq<Entry>,
    c: Seq<Entry>,
    protected: Set<u128>,
)
    requires
        keeps_tail(a, b, protected),
        keeps_tail(b, c, protected),
    ensures
        keeps_tail(a, c, protected),
{
    assert forall|n: int|
        0 <= n <= a.len() && #[trigger] tail_protected(a, n, protected) implies n <= c.len()
        && c.skip(c.len() - n) == a.skip(a.len() - n) by {
        assert(b.skip(b.len() - n) == a.skip(a.len() - n));
        assert(tail_protected(b, n, protected)) by {
            assert forall|i: int| b.len() - n <= i < b.len() && 0 <= i implies protected.contains(
                (#[trigger] b[i]).row_id.bits,
            ) by {
                let k = i - (b.len() - n);
                assert(b.skip(b.len() - n)[k] == b[i]);
                assert(a.skip(a.len() - n)[k] == a[a.len() - n + k]);
                assert(protected.contains(a[a.len() - n + k].row_id.bits));
            }
        }
    }
}

/// What follows stays the same.
proof fn lemma_keeps_tail_before(
    a: Seq<Entry>,
    b: Seq<Entry>,
    rest: Seq<Entry>,
    protected: Set<u128>,
)
    requires
        keeps_tail(a, b, protected),
    ensures
        keeps_tail(a + rest, b + rest, protected),
{
    let x = a + rest;
    let y = b + rest;
    assert forall|n: int|
        0 <= n <= x.len() && #[trigger] tail_protected(x, n, protected) implies n <= y.len()
        && y.skip(y.len() - n) == x.skip(x.len() - n) by {
        if n <= rest.len() {
            assert(y.skip(y.len() - n) =~= x.skip(x.len() - n));
        } else {
            let m = n - rest.len();
            assert(tail_protected(a, m, protected)) by {
                assert forall|i: int| a.len() - m <= i < a.len() && 0 <= i implies protected.contains(
                    (#[trigger] a[i]).row_id.bits,
                ) by {
                    assert(x[i] == a[i]);
                }
            }
            assert(b.skip(b.len() - m) == a.skip(a.len() - m));
            assert(y.skip(y.len() - n) =~= b.skip(b.len() - m) + rest);
            assert(x.skip(x.len() - n) =~= a.skip(a.len() - m) + rest);
        }
    }
}

/// What goes before stays the same.
proof fn lemma_keeps_tail_after(
    first: Seq<Entry>,
    a: Seq<Entry>,
    b: Seq<Entry>,
    protected: Set<u128>,
)
    requires
        keeps_tail(a, b, protected),
    ensures
        keeps_tail(first + a, first + b, protected),
{
    let x = first + a;
    let y = first + b;
    assert forall|n: int|
        0 <= n <= x.len() && #[trigger] tail_protected(x, n, protected) implies n <= y.len()
        && y.skip(y.len() - n) == x.skip(x.len() - n) by {
        let m = if n <= a.len() {
            n
        } else {
            a.len() as int
        };
        assert(tail_protected(a, m, protected)) by {
            assert forall|i: int| a.len() - m <= i < a.len() && 0 <= i implies protected.contains(
                (#[trigger] a[i]).row_id.bits,
            ) by {
                assert(x[first.len() + i] == a[i]);
            }
        }
        assert(b.skip(b.len() - m) == a.skip(a.len() - m));
        if n <= a.len() {
            assert(y.skip(y.len() - n) =~= b.skip(b.len() - n));
            assert(x.skip(x.len() - n) =~= a.skip(a.len() - n));
        } else {
            assert(b.skip(0) =~= b);
            assert(a.skip(0) =~= a);
            assert(b =~= a);
        }
    }
}

/// Entries of which none is protected can go.
proof fn lemma_keeps_tail_without(
    first: Seq<Entry>,
    gone: Seq<Entry>,
    rest: Seq<Entry>,
    protected: Set<u128>,
)
    requires
        forall|i: int|
            0 <= i < gone.len() ==> !protected.contains((#[trigger] gone[i]).row_id.bits),
    ensures
        keeps_tail(first + gone + rest, first + rest, protected),
{
    assert(keeps_tail(gone, Seq::<Entry>::empty(), protected)) by {
        assert forall|n: int|
            0 <= n <= gone.len() && #[trigger] tail_protected(gone, n, protected) implies n <= 0
            && Seq::<Entry>::empty().skip(0 - n) == gone.skip(gone.len() - n) by {
            if n > 0 {
                assert(protected.contains(gone[gone.len() - 1].row_id.bits));
            }
            assert(Seq::<Entry>::empty().skip(0) =~= gone.skip(gone.len() as int));
        }
    }
    lemma_keeps_tail_after(first, gone, Seq::empty(), protected);
    assert(first + Seq::<Entry>::empty() =~= first);
    lemma_keeps_tail_before(first + gone, first, rest, protected);
}

// --- Buckets.

/// Whether an entry is the cell of one of some rows.
pub open spec fn is_cell_of(rows: Seq<BucketRow>, column: int, entry: Entry) -> bool {
    exists|i: int|
        0 <= i < rows.len() && (#[trigger] rows[i]).row_id == entry.row_id && rows[i].time
            == entry.time && rows[i].cells[column] == Some(entry.cell)
}

proof fn lemma_column_entries(rows: Seq<BucketRow>, column: int)
    ensures
        forall|k: int|
            0 <= k < column_entries(rows, column).len() ==> is_cell_of(
                rows,
                column,
                #[trigger] column_entries(rows, column)[k],
            ),
    decreases rows.len(),
{
    if rows.len() > 0 {
        let init = rows.drop_last();
        lemma_column_entries(init, column);
        let all = column_entries(rows, column);
        let rest = column_entries(init, column);
        assert forall|k: int| 0 <= k < all.len() implies is_cell_of(
            rows,
            column,
            #[trigger] all[k],
        ) by {
            if k < rest.len() {
                assert(is_cell_of(init, column, rest[k]));
                let i = choose|i: int|
                    0 <= i < init.len() && (#[trigger] init[i]).row_id == rest[k].row_id
                        && init[i].time == rest[k].time && init[i].cells[column] == Some(
                        rest[k].cell,
                    );
                assert(rows[i] == init[i]);
            } else {
                assert(rows[rows.len() - 1].row_id == all[k].row_id);
            }
        }
    }
}

proof fn lemma_column_entries_concat(a: Seq<BucketRow>, b: Seq<BucketRow>, column: int)
    ensures
        column_entries(a + b, column) == column_entries(a, column) + column_entries(b, column),
    decreases b.len(),
{
    if b.len() == 0 {
        assert(a + b =~= a);
        assert(column_entries(a, column) + column_entries(b, column) =~= column_entries(
            a,
            column,
        ));
    } else {
        assert((a + b).drop_last() =~= a + b.drop_last());
        assert((a + b).last() == b.last());
        lemma_column_entries_concat(a, b.drop_last(), column);
        assert(column_entries(a + b, column) =~= column_entries(a, column) + column_entries(
            b,
            column,
        ));
    }
}

/// A row that is not protected leaves a bucket.
proof fn lemma_bucket_without(
    bucket: BucketView,
    at: int,
    component: Seq<char>,
    protected: Set<u128>,
)
    requires
        0 <= at < bucket.rows.len(),
        !protected.contains(bucket.rows[at].row_id.bits),
    ensures
        keeps_tail(
            entries_in_bucket(bucket, component),
            entries_in_bucket(bucket_without(bucket, at), component),
            protected,
        ),
{
    if bucket.columns.contains(component) {
        let column = bucket.columns.index_of(component);
        let first = bucket.rows.take(at);
        let gone = seq![bucket.rows[at]];
        let rest = bucket.rows.skip(at + 1);
        assert(bucket.rows =~= first + gone + rest);
        assert(bucket.rows.remove(at) =~= first + rest);
        lemma_column_entries_concat(first + gone, rest, column);
        lemma_column_entries_concat(first, gone, column);
        lemma_column_entries_concat(first, rest, column);
        lemma_column_entries(gone, column);
        let dropped = column_entries(gone, column);
        assert forall|k: int| 0 <= k < dropped.len() implies !protected.contains(
            (#[trigger] dropped[k]).row_id.bits,
        ) by {
            assert(is_cell_of(gone, column, dropped[k]));
        }
        lemma_keeps_tail_without(
            column_entries(first, column),
            dropped,
            column_entries(rest, column),
            protected,
        );
    }
}

/// Whether no row of a bucket is protected.
pub open spec fn unprotected(bucket: BucketView, protected: Set<u128>) -> bool {
    forall|i: int|
        0 <= i < bucket.rows.len() ==> !protected.contains((#[trigger] bucket.rows[i]).row_id.bits)
}

proof fn lemma_unprotected_entries(bucket: BucketView, component: Seq<char>, protected: Set<u128>)
    requires
        unprotected(bucket, protected),
    ensures
        forall|k: int|
            0 <= k < entries_in_bucket(bucket, component).len() ==> !protected.contains(
                (#[trigger] entries_in_bucket(bucket, component)[k]).row_id.bits,
            ),
{
    if bucket.columns.contains(component) {
        let column = bucket.columns.index_of(component);
        lemma_column_entries(bucket.rows, column);
        let all = entries_in_bucket(bucket, component);
        assert forall|k: int| 0 <= k < all.len() implies !protected.contains(
            (#[trigger] all[k]).row_id.bits,
        ) by {
            assert(is_cell_of(bucket.rows, column, all[k]));
            let i = choose|i: int|
                0 <= i < bucket.rows.len() && (#[trigger] bucket.rows[i]).row_id == all[k].row_id
                    && bucket.rows[i].time == all[k].time && bucket.rows[i].cells[column] == Some(
                    all[k].cell,
                );
            assert(!protected.contains(bucket.rows[i].row_id.bits));
        }
    }
}

pub proof fn lemma_entries_concat(a: Seq<TableBucket>, b: Seq<TableBucket>, component: Seq<char>)
    ensures
        entries_in(a + b, component) == entries_in(a, component) + entries_in(b, component),
    decreases b.len(),
{
    if b.len() == 0 {
        assert(a + b =~= a);
        assert(entries_in(a, component) + entries_in(b, component) =~= entries_in(a, component));
    } else {
        assert((a + b).drop_last() =~= a + b.drop_last());
        assert((a + b).last() == b.last());
        lemma_entries_concat(a, b.drop_last(), component);
        assert(entries_in(a + b, component) =~= entries_in(a, component) + entries_in(
            b,
            component,
        ));
    }
}

pub proof fn lemma_entries_one(bucket: TableBucket, component: Seq<char>)
    ensures
        entries_in(seq![bucket], component) == entries_in_bucket(bucket.bucket, component),
{
    reveal_with_fuel(entries_in, 2);
    assert(seq![bucket].drop_last() =~= Seq::<TableBucket>::empty());
    assert(entries_in(seq![bucket], component) =~= entries_in_bucket(bucket.bucket, component));
}

/// One bucket of several is replaced.
proof fn lemma_entries_update(
    buckets: Seq<TableBucket>,
    b: int,
    new: TableBucket,
    component: Seq<char>,
    protected: Set<u128>,
)
    requires
        0 <= b < buckets.len(),
        keeps_tail(
            entries_in_bucket(buckets[b].bucket, component),
            entries_in_bucket(new.bucket, component),
            protected,
        ),
    ensures
        keeps_tail(
            entries_in(buckets, component),
            entries_in(buckets.update(b, new), component),
            protected,
        ),
{
    let first = buckets.take(b);
    let rest = buckets.skip(b + 1);
    assert(buckets =~= first + seq![buckets[b]] + rest);
    assert(buckets.update(b, new) =~= first + seq![new] + rest);
    lemma_entries_concat(first + seq![buckets[b]], rest, component);
    lemma_entries_concat(first, seq![buckets[b]], component);
    lemma_entries_concat(first + seq![new], rest, component);
    lemma_entries_concat(first, seq![new], component);
    lemma_entries_one(buckets[b], component);
    lemma_entries_one(new, component);
    lemma_keeps_tail_after(
        entries_in(first, component),
        entries_in_bucket(buckets[b].bucket, component),
        entries_in_bucket(new.bucket, component),
        protected,
    );
    lemma_keeps_tail_before(
        entries_in(first, component) + entries_in_bucket(buckets[b].bucket, component),
        entries_in(first, component) + entries_in_bucket(new.bucket, component),
        entries_in(rest, component),
        protected,
    );
}

/// One bucket of several goes, and no row in it is protected.
proof fn lemma_entries_remove(
    buckets: Seq<TableBucket>,
    b: int,
    component: Seq<char>,
    protected: Set<u128>,
)
    requires
        0 <= b < buckets.len(),
        unprotected(buckets[b].bucket, protected),
    ensures
        keeps_tail(
            entries_in(buckets, component),
            entries_in(buckets.remove(b), component),
            protected,
        ),
{
    let first = buckets.take(b);
    let rest = buckets.skip(b + 1);
    assert(buckets =~= first + seq![buckets[b]] + rest);
    assert(buckets.remove(b) =~= first + rest);
    lemma_entries_concat(first + seq![buckets[b]], rest, component);
    lemma_entries_concat(first, seq![buckets[b]], component);
    lemma_entries_concat(first, rest, component);
    lemma_entries_one(buckets[b], component);
    lemma_unprotected_entries(buckets[b].bucket, component, protected);
    lemma_keeps_tail_without(
        entries_in(first, component),
        entries_in_bucket(buckets[b].bucket, component),
        entries_in(rest, component),
        protected,
    );
}

proof fn lemma_entries_rekeyed(buckets: Seq<TableBucket>, component: Seq<char>)
    requires
        buckets.len() > 0,
    ensures
        entries_in(rekeyed(buckets), component) == entries_in(buckets, component),
{
    let new = rekeyed(buckets);
    let rest = buckets.skip(1);
    assert(buckets =~= seq![buckets[0]] + rest);
    assert(new =~= seq![new[0]] + rest);
    lemma_entries_concat(seq![buckets[0]], rest, component);
    lemma_entries_concat(seq![new[0]], rest, component);
    lemma_entries_one(buckets[0], component);
    lemma_entries_one(new[0], component);
}

// --- Tables.

/// Whether one table is what is left of another, with nothing lost of the last entries of any
/// component as far as their rows are protected.
pub open spec fn table_keeps(before: TableView, after: TableView, protected: Set<u128>) -> bool {
    &&& after.timeline == before.timeline
    &&& after.entity_path == before.entity_path
    &&& after.all_components == before.all_components
    &&& forall|component: Seq<char>|
        keeps_tail(
            entries_in(before.buckets, component),
            #[trigger] entries_in(after.buckets, component),
            protected,
        )
}

/// Whether that is so for all of several tables.
pub open spec fn tables_keep(
    before: Seq<TableSlot>,
    after: Seq<TableSlot>,
    protected: Set<u128>,
) -> bool {
    &&& after.len() == before.len()
    &&& forall|t: int|
        0 <= t < before.len() ==> (#[trigger] after[t]).hash == before[t].hash && table_keeps(
            before[t].table,
            after[t].table,
            protected,
        )
}

proof fn lemma_table_keeps_trans(a: TableView, b: TableView, c: TableView, protected: Set<u128>)
    requires
        table_keeps(a, b, protected),
        table_keeps(b, c, protected),
    ensures
        table_keeps(a, c, protected),
{
    assert forall|component: Seq<char>|
        keeps_tail(
            entries_in(a.buckets, component),
            #[trigger] entries_in(c.buckets, component),
            protected,
        ) by {
        assert(keeps_tail(
            entries_in(a.buckets, component),
            entries_in(b.buckets, component),
            protected,
        ));
        lemma_keeps_tail_trans(
            entries_in(a.buckets, component),
            entries_in(b.buckets, component),
            entries_in(c.buckets, component),
            protected,
        );
    }
}

proof fn lemma_tables_keep_trans(
    a: Seq<TableSlot>,
    b: Seq<TableSlot>,
    c: Seq<TableSlot>,
    protected: Set<u128>,
)
    requires
        tables_keep(a, b, protected),
        tables_keep(b, c, protected),
    ensures
        tables_keep(a, c, protected),
{
    assert forall|t: int| 0 <= t < a.len() implies (#[trigger] c[t]).hash == a[t].hash
        && table_keeps(a[t].table, c[t].table, protected) by {
        assert(b[t].hash == a[t].hash);
        lemma_table_keeps_trans(a[t].table, b[t].table, c[t].table, protected);
    }
}

proof fn lemma_table_keeps_refl(table: TableView, protected: Set<u128>)
    ensures
        table_keeps(table, table, protected),
{
}

/// A row that is not protected leaves a table.
proof fn lemma_drop_row_keeps(
    table: TableView,
    row_id: RowId,
    time: TimeInt,
    protected: Set<u128>,
)
    requires
        table.valid(),
        time.value >= crate::names::TIME_MIN,
        !protected.contains(row_id.bits),
    ensures
        table_keeps(table, drop_row_spec(table, row_id, time).table, protected),
{
    let after = drop_row_spec(table, row_id, time).table;
    let b = bucket_of(table.buckets, time.value);
    crate::table::lemma_table_bucket_of(table, time.value);
    let bucket = table.buckets[b].bucket;
    match row_index(bucket.rows, row_id, time.value) {
        None => {},
        Some(i) => {
            assert forall|component: Seq<char>|
                keeps_tail(
                    entries_in(table.buckets, component),
                    #[trigger] entries_in(after.buckets, component),
                    protected,
                ) by {
                let left = bucket_without(bucket, i);
                if table.buckets.len() > 1 && left.rows.len() == 0 {
                    assert(unprotected(bucket, protected));
                    lemma_entries_remove(table.buckets, b, component, protected);
                    lemma_entries_rekeyed(table.buckets.remove(b), component);
                } else {
                    lemma_bucket_without(bucket, i, component, protected);
                    lemma_entries_update(
                        table.buckets,
                        b,
                        TableBucket { start: table.buckets[b].start, bucket: left },
                        component,
                        protected,
                    );
                }
            }
        },
    }
}

/// Buckets without protected rows go.
proof fn lemma_kept_buckets_keep(
    buckets: Seq<TableBucket>,
    max: RowId,
    component: Seq<char>,
    protected: Set<u128>,
)
    ensures
        keeps_tail(
            entries_in(buckets, component),
            entries_in(kept_buckets(buckets, max, protected), component),
            protected,
        ),
    decreases buckets.len(),
{
    if buckets.len() > 0 {
        let init = buckets.drop_last();
        let last = buckets.last();
        lemma_kept_buckets_keep(init, max, component, protected);
        let kept = kept_buckets(init, max, protected);
        let own = entries_in_bucket(last.bucket, component);
        lemma_keeps_tail_before(
            entries_in(init, component),
            entries_in(kept, component),
            own,
            protected,
        );
        if droppable(last.bucket, max, protected) {
            assert(unprotected(last.bucket, protected));
            lemma_unprotected_entries(last.bucket, component, protected);
            let none = Seq::<Entry>::empty();
            lemma_keeps_tail_without(entries_in(kept, component), own, none, protected);
            assert(entries_in(kept, component) + own + none =~= entries_in(kept, component) + own);
            assert(entries_in(kept, component) + none =~= entries_in(kept, component));
            lemma_keeps_tail_trans(
                entries_in(buckets, component),
                entries_in(kept, component) + own,
                entries_in(kept, component),
                protected,
            );
        } else {
            assert(kept.push(last).drop_last() =~= kept);
        }
    } else {
        assert(kept_buckets(buckets, max, protected) =~= buckets);
    }
}

proof fn lemma_drop_buckets_spec_keeps(table: TableView, max: RowId, protected: Set<u128>)
    ensures
        table_keeps(table, drop_buckets_spec(table, max, protected).table, protected),
{
    let after = drop_buckets_spec(table, max, protected).table;
    let kept = kept_buckets(table.buckets, max, protected);
    assert forall|component: Seq<char>|
        keeps_tail(
            entries_in(table.buckets, component),
            #[trigger] entries_in(after.buckets, component),
            protected,
        ) by {
        lemma_kept_buckets_keep(table.buckets, max, component, protected);
        if kept.len() == 0 {
            lemma_entries_one(after.buckets[0], component);
            assert(after.buckets =~= seq![after.buckets[0]]);
            assert(entries_in(kept, component) =~= Seq::empty());
            assert(entries_in(after.buckets, component) =~= Seq::empty());
        } else {
            lemma_entries_rekeyed(kept, component);
        }
    }
}

proof fn lemma_drop_buckets_keeps(tables: Seq<TableSlot>, max: RowId, protected: Set<u128>)
    ensures
        tables_keep(tables, drop_buckets(tables, max, protected).tables, protected),
    decreases tables.len(),
{
    if tables.len() > 0 {
        let init = tables.drop_last();
        lemma_drop_buckets_keeps(init, max, protected);
        lemma_drop_buckets_spec_keeps(tables.last().table, max, protected);
        let rest = drop_buckets(init, max, protected).tables;
        let after = drop_buckets(tables, max, protected).tables;
        assert forall|t: int| 0 <= t < tables.len() implies (#[trigger] after[t]).hash
            == tables[t].hash && table_keeps(tables[t].table, after[t].table, protected) by {
            if t < init.len() {
                assert(rest[t].hash == init[t].hash);
            }
        }
    }
}

// --- Collections.

proof fn lemma_drop_row_at_times_keeps(
    tables: Seq<TableSlot>,
    store_insert_ids: bool,
    row: RowMeta,
    times: Seq<(Timeline, TimeInt)>,
    protected: Set<u128>,
)
    requires
        tables_valid(tables, store_insert_ids),
        crate::row::times_temporal(times),
        !protected.contains(row.row_id.bits),
    ensures
        tables_keep(
            tables,
            drop_row_at_times(tables, row.hash, row.row_id, times).tables,
            protected,
        ),
    decreases times.len(),
{
    if times.len() > 0 {
        let init = times.drop_last();
        assert forall|i: int| 0 <= i < init.len() implies (#[trigger] init[i]).1.value
            >= crate::names::TIME_MIN by {
            assert(times[i].1.value >= crate::names::TIME_MIN);
        }
        assert(times[times.len() - 1].1.value >= crate::names::TIME_MIN);
        lemma_drop_row_at_times_keeps(tables, store_insert_ids, row, init, protected);
        crate::gc::lemma_drop_row_at_times_valid(
            tables,
            store_insert_ids,
            row.hash,
            row.row_id,
            init,
        );
        let st = drop_row_at_times(tables, row.hash, row.row_id, init);
        let (timeline, time) = times.last();
        if let Some(i) = slot_index(st.tables, row.hash, timeline@) {
            assert(0 <= i < st.tables.len() && is_table_of(st.tables[i], row.hash, timeline@));
            crate::gc::lemma_table_of_valid(st.tables, store_insert_ids, i);
            lemma_drop_row_keeps(st.tables[i].table, row.row_id, time, protected);
            let after = drop_row_at_times(tables, row.hash, row.row_id, times).tables;
            assert(tables_keep(st.tables, after, protected)) by {
                assert forall|t: int| 0 <= t < st.tables.len() implies (#[trigger] after[t]).hash
                    == st.tables[t].hash && table_keeps(
                    st.tables[t].table,
                    after[t].table,
                    protected,
                ) by {
                    if t != i {
                        lemma_table_keeps_refl(st.tables[t].table, protected);
                    }
                }
            }
            lemma_tables_keep_trans(tables, st.tables, after, protected);
        }
    }
}

/// Whether no row of a batch is protected, and all of them have proper times.
pub open spec fn batch_unprotected(batch: Seq<RowMeta>, protected: Set<u128>) -> bool {
    forall|i: int|
        0 <= i < batch.len() ==> !protected.contains((#[trigger] batch[i]).row_id.bits)
            && crate::row::times_temporal(batch[i].times)
}

proof fn lemma_batch_temporal(batch: Seq<RowMeta>, protected: Set<u128>)
    requires
        batch_unprotected(batch, protected),
    ensures
        crate::gc::rows_temporal(batch),
{
}

proof fn lemma_drop_rows_keeps(
    tables: Seq<TableSlot>,
    store_insert_ids: bool,
    budget: Option<u128>,
    rows: Seq<RowMeta>,
    protected: Set<u128>,
)
    requires
        tables_valid(tables, store_insert_ids),
        batch_unprotected(rows, protected),
    ensures
        tables_keep(tables, drop_rows(tables, budget, rows).tables, protected),
    decreases rows.len(),
{
    if rows.len() > 0 {
        let init = rows.drop_last();
        assert(batch_unprotected(init, protected)) by {
            assert forall|i: int| 0 <= i < init.len() implies !protected.contains(
                (#[trigger] init[i]).row_id.bits,
            ) && crate::row::times_temporal(init[i].times) by {
                assert(!protected.contains(rows[i].row_id.bits));
            }
        }
        lemma_drop_rows_keeps(tables, store_insert_ids, budget, init, protected);
        lemma_batch_temporal(init, protected);
        crate::gc::lemma_drop_rows_valid(tables, store_insert_ids, budget, init);
        let st = drop_rows(tables, budget, init);
        let row = rows[rows.len() - 1];
        assert(!protected.contains(row.row_id.bits));
        lemma_drop_row_at_times_keeps(st.tables, store_insert_ids, row, row.times, protected);
        lemma_tables_keep_trans(
            tables,
            st.tables,
            drop_row_at_times(st.tables, row.hash, row.row_id, row.times).tables,
            protected,
        );
    }
}

proof fn lemma_sweep_batch_keeps(
    rules: SweepRules,
    store_insert_ids: bool,
    at: Sweep,
    batch: Seq<RowMeta>,
    batch_is_protected: bool,
)
    requires
        tables_valid(at.tables, store_insert_ids),
        batch_unprotected(batch, rules.protected),
    ensures
        tables_valid(
            sweep_batch(rules, at, batch, batch_is_protected).tables,
            store_insert_ids,
        ),
        tables_keep(
            at.tables,
            sweep_batch(rules, at, batch, batch_is_protected).tables,
            rules.protected,
        ),
{
    lemma_batch_temporal(batch, rules.protected);
    crate::gc::lemma_sweep_batch_valid(rules, store_insert_ids, at, batch, batch_is_protected);
    if rules.enable_batching && batch.len() > 0 && !batch_is_protected {
        let max = batch.last().row_id;
        let dropped = drop_buckets(at.tables, max, rules.protected);
        lemma_drop_buckets_keeps(at.tables, max, rules.protected);
        crate::gc::lemma_drop_buckets_tables(at.tables, store_insert_ids, max, rules.protected);
        let budget = crate::gc::less(at.budget, dropped.num_bytes);
        lemma_drop_rows_keeps(dropped.tables, store_insert_ids, budget, batch, rules.protected);
        lemma_tables_keep_trans(
            at.tables,
            dropped.tables,
            drop_rows(dropped.tables, budget, batch).tables,
            rules.protected,
        );
    } else {
        lemma_drop_rows_keeps(at.tables, store_insert_ids, at.budget, batch, rules.protected);
        assert forall|t: int| 0 <= t < at.tables.len() implies table_keeps(
            at.tables[t].table,
            #[trigger] at.tables[t].table,
            rules.protected,
        ) by {
            lemma_table_keeps_refl(at.tables[t].table, rules.protected);
        }
    }
}

/// Whether registered rows have proper times.
pub open spec fn rows_proper(rows: Seq<RowMeta>) -> bool {
    forall|i: int| 0 <= i < rows.len() ==> crate::row::times_temporal((#[trigger] rows[i]).times)
}

proof fn lemma_sweep_keeps(
    rules: SweepRules,
    store_insert_ids: bool,
    at: Sweep,
    rows: Seq<RowMeta>,
    batch: Seq<RowMeta>,
    batch_is_protected: bool,
    num_batches: int,
)
    requires
        tables_valid(at.tables, store_insert_ids),
        batch_unprotected(batch, rules.protected),
        rows_proper(rows),
    ensures
        tables_valid(
            sweep_rows(rules, at, rows, batch, batch_is_protected, num_batches).tables,
            store_insert_ids,
        ),
        tables_keep(
            at.tables,
            sweep_rows(rules, at, rows, batch, batch_is_protected, num_batches).tables,
            rules.protected,
        ),
    decreases rows.len(),
{
    if rows.len() == 0 {
        lemma_sweep_batch_keeps(rules, store_insert_ids, at, batch, batch_is_protected);
    } else {
        let row = rows[0];
        let rest = rows.skip(1);
        assert(crate::row::times_temporal(row.times));
        assert(rows_proper(rest)) by {
            assert forall|i: int| 0 <= i < rest.len() implies crate::row::times_temporal(
                (#[trigger] rest[i]).times,
            ) by {
                assert(crate::row::times_temporal(rows[i + 1].times));
            }
        }
        if rules.protected.contains(row.row_id.bits) {
            lemma_sweep_keeps(rules, store_insert_ids, at, rest, batch, true, num_batches);
        } else {
            let full = batch.push(row);
            assert(batch_unprotected(full, rules.protected)) by {
                assert forall|i: int| 0 <= i < full.len() implies !rules.protected.contains(
                    (#[trigger] full[i]).row_id.bits,
                ) && crate::row::times_temporal(full[i].times) by {
                    if i < batch.len() {
                        assert(!rules.protected.contains(batch[i].row_id.bits));
                    }
                }
            }
            if full.len() < rules.batch_size {
                lemma_sweep_keeps(
                    rules,
                    store_insert_ids,
                    at,
                    rest,
                    full,
                    batch_is_protected,
                    num_batches,
                );
            } else {
                let then = sweep_batch(rules, at, full, batch_is_protected);
                lemma_sweep_batch_keeps(rules, store_insert_ids, at, full, batch_is_protected);
                if (rules.time_is_up)(num_batches) || spent(then.budget) {
                    lemma_sweep_batch_keeps(
                        rules,
                        store_insert_ids,
                        then,
                        full,
                        batch_is_protected,
                    );
                } else {
                    lemma_sweep_keeps(
                        rules,
                        store_insert_ids,
                        then,
                        rest,
                        Seq::empty(),
                        false,
                        num_batches + 1,
                    );
                }
                lemma_tables_keep_trans(
                    at.tables,
                    then.tables,
                    sweep_rows(rules, at, rows, batch, batch_is_protected, num_batches).tables,
                    rules.protected,
                );
            }
        }
    }
}

// --- Rows as a whole.

/// Whether a table still has every protected row of another, at the same time.
pub open spec fn table_spares(before: TableView, after: TableView, protected: Set<u128>) -> bool {
    forall|id: RowId, time: i64| #[trigger]
        before.has_row(id, time) && protected.contains(id.bits) ==> after.has_row(id, time)
}

/// Whether that is so for all of several tables.
pub open spec fn tables_spare(
    before: Seq<TableSlot>,
    after: Seq<TableSlot>,
    protected: Set<u128>,
) -> bool {
    &&& before.len() == after.len()
    &&& forall|t: int|
        0 <= t < before.len() ==> (#[trigger] after[t]).hash == before[t].hash
            && after[t].table.timeline == before[t].table.timeline && table_spares(
            before[t].table,
            after[t].table,
            protected,
        )
}

/// Whether nothing is reported of any protected row.
pub open spec fn reports_unprotected(diffs: Seq<DiffView>, protected: Set<u128>) -> bool {
    forall|d: int| 0 <= d < diffs.len() ==> !protected.contains((#[trigger] diffs[d]).row_id.bits)
}

proof fn lemma_tables_spare_trans(
    a: Seq<TableSlot>,
    b: Seq<TableSlot>,
    c: Seq<TableSlot>,
    protected: Set<u128>,
)
    requires
        tables_spare(a, b, protected),
        tables_spare(b, c, protected),
    ensures
        tables_spare(a, c, protected),
{
    assert forall|t: int| 0 <= t < a.len() implies (#[trigger] c[t]).hash == a[t].hash
        && c[t].table.timeline == a[t].table.timeline && table_spares(
        a[t].table,
        c[t].table,
        protected,
    ) by {
        assert(b[t].hash == a[t].hash);
        assert(c[t].hash == b[t].hash);
        assert forall|id: RowId, time: i64| #[trigger]
            a[t].table.has_row(id, time) && protected.contains(id.bits) implies c[t].table.has_row(
            id,
            time,
        ) by {
            assert(b[t].table.has_row(id, time));
        }
    }
}

proof fn lemma_drop_row_spares(
    table: TableView,
    row_id: RowId,
    time: TimeInt,
    protected: Set<u128>,
)
    requires
        table.valid(),
        time.value >= TIME_MIN,
        !protected.contains(row_id.bits),
    ensures
        table_spares(table, drop_row_spec(table, row_id, time).table, protected),
        drop_row_spec(table, row_id, time).diff matches Some(diff) ==> diff.row_id == row_id,
{
    let after = drop_row_spec(table, row_id, time).table;
    let k = bucket_of(table.buckets, time.value);
    crate::table::lemma_table_bucket_of(table, time.value);
    let bucket = table.buckets[k].bucket;
    if let Some(at) = row_index(bucket.rows, row_id, time.value) {
        assert(0 <= at < bucket.rows.len() && bucket.rows[at].row_id == row_id);
        let left = bucket_without(bucket, at);
        assert forall|id: RowId, t: i64| #[trigger]
            table.has_row(id, t) && protected.contains(id.bits) implies after.has_row(id, t) by {
            let (b, i) = choose|b: int, i: int|
                0 <= b < table.buckets.len() && 0 <= i < table.buckets[b].bucket.rows.len() && (
                #[trigger] table.buckets[b].bucket.rows[i]).row_id == id
                    && table.buckets[b].bucket.rows[i].time == t;
            let row = table.buckets[b].bucket.rows[i];
            if table.buckets.len() > 1 && left.rows.len() == 0 {
                assert(b != k) by {
                    if b == k {
                        assert(i == at);
                    }
                }
                let b2 = if b < k {
                    b
                } else {
                    b - 1
                };
                assert(table.buckets.remove(k)[b2] == table.buckets[b]);
                assert(after.buckets[b2].bucket.rows[i] == row);
            } else if b == k {
                let i2 = if i < at {
                    i
                } else {
                    i - 1
                };
                assert(after.buckets[b].bucket.rows[i2] == row);
            } else {
                assert(after.buckets[b].bucket.rows[i] == row);
            }
        }
    }
}

pub proof fn lemma_kept_holds(
    buckets: Seq<TableBucket>,
    max: RowId,
    protected: Set<u128>,
    b: int,
) -> (a: int)
    requires
        0 <= b < buckets.len(),
        !droppable(buckets[b].bucket, max, protected),
    ensures
        0 <= a < kept_buckets(buckets, max, protected).len(),
        kept_buckets(buckets, max, protected)[a] == buckets[b],
    decreases buckets.len(),
{
    let init = buckets.drop_last();
    if b < init.len() {
        lemma_kept_holds(init, max, protected, b)
    } else {
        kept_buckets(init, max, protected).len() as int
    }
}

proof fn lemma_drop_buckets_spec_spares(table: TableView, max: RowId, protected: Set<u128>)
    ensures
        table_spares(table, drop_buckets_spec(table, max, protected).table, protected),
{
    let after = drop_buckets_spec(table, max, protected).table;
    assert forall|id: RowId, t: i64| #[trigger]
        table.has_row(id, t) && protected.contains(id.bits) implies after.has_row(id, t) by {
        let (b, i) = choose|b: int, i: int|
            0 <= b < table.buckets.len() && 0 <= i < table.buckets[b].bucket.rows.len() && (
            #[trigger] table.buckets[b].bucket.rows[i]).row_id == id
                && table.buckets[b].bucket.rows[i].time == t;
        assert(!droppable(table.buckets[b].bucket, max, protected));
        let a = lemma_kept_holds(table.buckets, max, protected, b);
        assert(after.buckets[a].bucket == table.buckets[b].bucket);
        assert(after.buckets[a].bucket.rows[i].row_id == id);
    }
}

proof fn lemma_bucket_diffs_unprotected(
    buckets: Seq<TableBucket>,
    max: RowId,
    protected: Set<u128>,
    timeline: Timeline,
    entity_path: EntityPath,
)
    ensures
        reports_unprotected(
            bucket_diffs(droppable_buckets(buckets, max, protected), timeline, entity_path),
            protected,
        ),
    decreases buckets.len(),
{
    if buckets.len() > 0 {
        let init = buckets.drop_last();
        lemma_bucket_diffs_unprotected(init, max, protected, timeline, entity_path);
        let rest = droppable_buckets(init, max, protected);
        if droppable(buckets.last().bucket, max, protected) {
            let all = rest.push(buckets.last());
            assert(all.drop_last() =~= rest);
            let rows = buckets.last().bucket.rows;
            let before = bucket_diffs(rest, timeline, entity_path);
            let diffs = bucket_diffs(all, timeline, entity_path);
            assert forall|d: int| 0 <= d < diffs.len() implies !protected.contains(
                (#[trigger] diffs[d]).row_id.bits,
            ) by {
                if d < before.len() {
                    assert(diffs[d] == before[d]);
                } else {
                    assert(diffs[d].row_id == rows[d - before.len()].row_id);
                }
            }
        }
    }
}

proof fn lemma_merge_unprotected(
    diffs: Seq<DiffView>,
    removed: Seq<DiffView>,
    protected: Set<u128>,
)
    requires
        reports_unprotected(diffs, protected),
        reports_unprotected(removed, protected),
    ensures
        reports_unprotected(merge_diffs(diffs, removed), protected),
    decreases removed.len(),
{
    if removed.len() > 0 {
        let init = removed.drop_last();
        assert(reports_unprotected(init, protected)) by {
            assert forall|d: int| 0 <= d < init.len() implies !protected.contains(
                (#[trigger] init[d]).row_id.bits,
            ) by {
                assert(!protected.contains(removed[d].row_id.bits));
            }
        }
        lemma_merge_unprotected(diffs, init, protected);
        let rest = merge_diffs(diffs, init);
        let last = removed[removed.len() - 1];
        assert(!protected.contains(last.row_id.bits));
        let all = merge_diffs(diffs, removed);
        lemma_diff_index(rest, last.row_id);
        assert forall|d: int| 0 <= d < all.len() implies !protected.contains(
            (#[trigger] all[d]).row_id.bits,
        ) by {
            if d < rest.len() {
                assert(all[d].row_id == rest[d].row_id);
            }
        }
    }
}

proof fn lemma_drop_buckets_spares(
    tables: Seq<TableSlot>,
    store_insert_ids: bool,
    max: RowId,
    protected: Set<u128>,
)
    requires
        tables_valid(tables, store_insert_ids),
    ensures
        tables_spare(tables, drop_buckets(tables, max, protected).tables, protected),
{
    crate::gc::lemma_drop_buckets_tables(tables, store_insert_ids, max, protected);
    let after = drop_buckets(tables, max, protected).tables;
    assert forall|t: int| 0 <= t < tables.len() implies (#[trigger] after[t]).hash
        == tables[t].hash && after[t].table.timeline == tables[t].table.timeline && table_spares(
        tables[t].table,
        after[t].table,
        protected,
    ) by {
        lemma_drop_buckets_spec_spares(tables[t].table, max, protected);
    }
}

proof fn lemma_drop_buckets_reports(tables: Seq<TableSlot>, max: RowId, protected: Set<u128>)
    ensures
        reports_unprotected(drop_buckets(tables, max, protected).diffs, protected),
        reports_unprotected(drop_buckets(tables, max, protected).pending, protected),
    decreases tables.len(),
{
    if tables.len() > 0 {
        let st = drop_buckets(tables.drop_last(), max, protected);
        lemma_drop_buckets_reports(tables.drop_last(), max, protected);
        let slot = tables.last();
        lemma_bucket_diffs_unprotected(
            slot.table.buckets,
            max,
            protected,
            slot.table.timeline,
            slot.table.entity_path,
        );
        let dropped = drop_buckets_spec(slot.table, max, protected);
        lemma_merge_unprotected(st.pending, dropped.diffs, protected);
        lemma_merge_unprotected(Seq::empty(), dropped.diffs, protected);
        lemma_reports_concat(st.diffs, st.pending, protected);
    }
}

proof fn lemma_reports_concat(a: Seq<DiffView>, b: Seq<DiffView>, protected: Set<u128>)
    requires
        reports_unprotected(a, protected),
        reports_unprotected(b, protected),
    ensures
        reports_unprotected(a + b, protected),
{
    let all = a + b;
    assert forall|d: int| 0 <= d < all.len() implies !protected.contains(
        (#[trigger] all[d]).row_id.bits,
    ) by {
        if d < a.len() {
            assert(all[d] == a[d]);
        } else {
            assert(all[d] == b[d - a.len()]);
        }
    }
}

proof fn lemma_drop_row_at_times_spares(
    tables: Seq<TableSlot>,
    store_insert_ids: bool,
    row: RowMeta,
    times: Seq<(Timeline, TimeInt)>,
    protected: Set<u128>,
)
    requires
        tables_valid(tables, store_insert_ids),
        crate::row::times_temporal(times),
        !protected.contains(row.row_id.bits),
    ensures
        ({
            let dropped = drop_row_at_times(tables, row.hash, row.row_id, times);
            &&& tables_spare(tables, dropped.tables, protected)
            &&& dropped.diff matches Some(diff) ==> diff.row_id == row.row_id
        }),
    decreases times.len(),
{
    if times.len() > 0 {
        let init = times.drop_last();
        assert(crate::row::times_temporal(init)) by {
            assert forall|i: int| 0 <= i < init.len() implies (#[trigger] init[i]).1.value
                >= TIME_MIN by {
                assert(times[i].1.value >= TIME_MIN);
            }
        }
        assert(times[times.len() - 1].1.value >= TIME_MIN);
        lemma_drop_row_at_times_spares(tables, store_insert_ids, row, init, protected);
        crate::gc::lemma_drop_row_at_times_valid(
            tables,
            store_insert_ids,
            row.hash,
            row.row_id,
            init,
        );
        let st = drop_row_at_times(tables, row.hash, row.row_id, init);
        let (timeline, time) = times.last();
        if let Some(i) = slot_index(st.tables, row.hash, timeline@) {
            assert(0 <= i < st.tables.len() && is_table_of(st.tables[i], row.hash, timeline@));
            crate::gc::lemma_table_of_valid(st.tables, store_insert_ids, i);
            lemma_drop_row_spares(st.tables[i].table, row.row_id, time, protected);
            let after = drop_row_at_times(tables, row.hash, row.row_id, times).tables;
            assert(tables_spare(st.tables, after, protected));
            lemma_tables_spare_trans(tables, st.tables, after, protected);
        }
    }
}

proof fn lemma_drop_rows_spares(
    tables: Seq<TableSlot>,
    store_insert_ids: bool,
    budget: Option<u128>,
    rows: Seq<RowMeta>,
    protected: Set<u128>,
)
    requires
        tables_valid(tables, store_insert_ids),
        batch_unprotected(rows, protected),
    ensures
        tables_spare(tables, drop_rows(tables, budget, rows).tables, protected),
        reports_unprotected(drop_rows(tables, budget, rows).diffs, protected),
    decreases rows.len(),
{
    if rows.len() > 0 {
        let init = rows.drop_last();
        assert(batch_unprotected(init, protected)) by {
            assert forall|i: int| 0 <= i < init.len() implies !protected.contains(
                (#[trigger] init[i]).row_id.bits,
            ) && crate::row::times_temporal(init[i].times) by {
                assert(!protected.contains(rows[i].row_id.bits));
            }
        }
        lemma_drop_rows_spares(tables, store_insert_ids, budget, init, protected);
        lemma_batch_temporal(init, protected);
        crate::gc::lemma_drop_rows_valid(tables, store_insert_ids, budget, init);
        let st = drop_rows(tables, budget, init);
        let row = rows[rows.len() - 1];
        assert(!protected.contains(row.row_id.bits));
        lemma_drop_row_at_times_spares(st.tables, store_insert_ids, row, row.times, protected);
        let dropped = drop_row_at_times(st.tables, row.hash, row.row_id, row.times);
        lemma_tables_spare_trans(tables, st.tables, dropped.tables, protected);
        lemma_reports_concat(st.diffs, crate::gc::opt_seq(dropped.diff), protected);
    }
}

proof fn lemma_sweep_batch_spares(
    rules: SweepRules,
    store_insert_ids: bool,
    at: Sweep,
    batch: Seq<RowMeta>,
    batch_is_protected: bool,
)
    requires
        tables_valid(at.tables, store_insert_ids),
        batch_unprotected(batch, rules.protected),
        reports_unprotected(at.diffs, rules.protected),
    ensures
        ({
            let end = sweep_batch(rules, at, batch, batch_is_protected);
            &&& tables_valid(end.tables, store_insert_ids)
            &&& tables_spare(at.tables, end.tables, rules.protected)
            &&& reports_unprotected(end.diffs, rules.protected)
        }),
{
    let protected = rules.protected;
    lemma_batch_temporal(batch, protected);
    crate::gc::lemma_sweep_batch_valid(rules, store_insert_ids, at, batch, batch_is_protected);
    let (tables, diffs, budget) = if rules.enable_batching && batch.len() > 0
        && !batch_is_protected {
        let max = batch.last().row_id;
        let dropped = drop_buckets(at.tables, max, protected);
        lemma_drop_buckets_spares(at.tables, store_insert_ids, max, protected);
        lemma_drop_buckets_reports(at.tables, max, protected);
        lemma_reports_concat(dropped.diffs, dropped.pending, protected);
        crate::gc::lemma_drop_buckets_tables(at.tables, store_insert_ids, max, protected);
        (
            dropped.tables,
            dropped.diffs + dropped.pending,
            crate::gc::less(at.budget, dropped.num_bytes),
        )
    } else {
        (at.tables, Seq::empty(), at.budget)
    };
    lemma_drop_rows_spares(tables, store_insert_ids, budget, batch, protected);
    let rows = drop_rows(tables, budget, batch);
    lemma_tables_spare_trans(at.tables, tables, rows.tables, protected);
    lemma_reports_concat(diffs, rows.diffs, protected);
    lemma_reports_concat(at.diffs, diffs, protected);
    lemma_reports_concat(at.diffs, diffs + rows.diffs, protected);
}

proof fn lemma_sweep_spares(
    rules: SweepRules,
    store_insert_ids: bool,
    at: Sweep,
    rows: Seq<RowMeta>,
    batch: Seq<RowMeta>,
    batch_is_protected: bool,
    num_batches: int,
)
    requires
        tables_valid(at.tables, store_insert_ids),
        batch_unprotected(batch, rules.protected),
        rows_proper(rows),
        reports_unprotected(at.diffs, rules.protected),
    ensures
        ({
            let end = sweep_rows(rules, at, rows, batch, batch_is_protected, num_batches);
            &&& tables_spare(at.tables, end.tables, rules.protected)
            &&& reports_unprotected(end.diffs, rules.protected)
        }),
    decreases rows.len(),
{
    if rows.len() == 0 {
        lemma_sweep_batch_spares(rules, store_insert_ids, at, batch, batch_is_protected);
    } else {
        let row = rows[0];
        let rest = rows.skip(1);
        assert(crate::row::times_temporal(row.times));
        assert(rows_proper(rest)) by {
            assert forall|i: int| 0 <= i < rest.len() implies crate::row::times_temporal(
                (#[trigger] rest[i]).times,
            ) by {
                assert(crate::row::times_temporal(rows[i + 1].times));
            }
        }
        if rules.protected.contains(row.row_id.bits) {
            lemma_sweep_spares(rules, store_insert_ids, at, rest, batch, true, num_batches);
        } else {
            let full = batch.push(row);
            assert(batch_unprotected(full, rules.protected)) by {
                assert forall|i: int| 0 <= i < full.len() implies !rules.protected.contains(
                    (#[trigger] full[i]).row_id.bits,
                ) && crate::row::times_temporal(full[i].times) by {
                    if i < batch.len() {
                        assert(!rules.protected.contains(batch[i].row_id.bits));
                    }
                }
            }
            if full.len() < rules.batch_size {
                lemma_sweep_spares(
                    rules,
                    store_insert_ids,
                    at,
                    rest,
                    full,
                    batch_is_protected,
                    num_batches,
                );
            } else {
                let then = sweep_batch(rules, at, full, batch_is_protected);
                let end = sweep_rows(rules, at, rows, batch, batch_is_protected, num_batches);
                lemma_sweep_batch_spares(rules, store_insert_ids, at, full, batch_is_protected);
                if (rules.time_is_up)(num_batches) || spent(then.budget) {
                    lemma_sweep_batch_spares(
                        rules,
                        store_insert_ids,
                        then,
                        full,
                        batch_is_protected,
                    );
                } else {
                    lemma_sweep_spares(
                        rules,
                        store_insert_ids,
                        then,
                        rest,
                        Seq::empty(),
                        false,
                        num_batches + 1,
                    );
                }
                lemma_tables_spare_trans(at.tables, then.tables, end.tables, rules.protected);
            }
        }
    }
}

/// Law: protected rows stay. Whatever its options, a collection leaves every protected row at every
/// time that a table has it at, and reports nothing of it. This is before tables without data are
/// purged.
pub proof fn law_protected_rows_stay(
    store: StoreView,
    store_insert_ids: bool,
    bucket_num_rows: u64,
    options: GarbageCollectionOptions,
    time_is_up: spec_fn(int) -> bool,
)
    requires
        tables_valid(store.tables, store_insert_ids),
        registry_valid(store.registry),
    ensures
        ({
            let end = sweep_of(store, bucket_num_rows, options, time_is_up);
            &&& tables_spare(store.tables, end.tables, protected_by(store, options))
            &&& reports_unprotected(end.diffs, protected_by(store, options))
        }),
{
    assert(rows_proper(store.registry));
    lemma_sweep_spares(
        SweepRules {
            enable_batching: options.enable_batching,
            batch_size: batch_size_of(bucket_num_rows),
            protected: protected_by(store, options),
            time_is_up,
        },
        store_insert_ids,
        Sweep {
            tables: store.tables,
            heap_size: store.heap_size,
            budget: budget_of(options.target),
            diffs: Seq::empty(),
        },
        store.registry,
        Seq::empty(),
        false,
        0,
    );
}

// --- What that means for queries.

/// What is latest at the end of time is simply what comes last.
proof fn lemma_latest_at_the_end(entries: Seq<Entry>)
    ensures
        latest_until(entries, TIME_MAX) == if entries.len() == 0 {
            None::<Entry>
        } else {
            Some(entries.last())
        },
{
}

/// Each entry is the cell of some row.
pub proof fn lemma_entry_cells(buckets: Seq<TableBucket>, component: Seq<char>, k: int)
    requires
        0 <= k < entries_in(buckets, component).len(),
    ensures
        exists|b: int|
            0 <= b < buckets.len() && is_entry_of((#[trigger] buckets[b]).bucket, component, entries_in(
                buckets,
                component,
            )[k]),
    decreases buckets.len(),
{
    let init = buckets.drop_last();
    let rest = entries_in(init, component);
    let entry = entries_in(buckets, component)[k];
    if k < rest.len() {
        lemma_entry_cells(init, component, k);
        let b = choose|b: int|
            0 <= b < init.len() && is_entry_of((#[trigger] init[b]).bucket, component, rest[k]);
        assert(buckets[b] == init[b]);
    } else {
        let bucket = buckets.last().bucket;
        let own = entries_in_bucket(bucket, component);
        assert(own[k - rest.len()] == entry);
        lemma_column_entries(bucket.rows, bucket.columns.index_of(component));
        assert(is_entry_of(buckets[buckets.len() - 1].bucket, component, entry));
    }
}

/// Whether an entry is a cell in a bucket.
pub open spec fn is_entry_of(bucket: BucketView, component: Seq<char>, entry: Entry) -> bool {
    bucket.columns.contains(component) && is_cell_of(
        bucket.rows,
        bucket.columns.index_of(component),
        entry,
    )
}

/// A table in which a cell holds an instance has data.
proof fn lemma_entry_is_data(table: TableView, component: Seq<char>, k: int)
    requires
        0 <= k < entries_in(table.buckets, component).len(),
        entries_in(table.buckets, component)[k].cell.num_instances > 0,
    ensures
        table_has_data(table),
{
    lemma_entry_cells(table.buckets, component, k);
    let entry = entries_in(table.buckets, component)[k];
    let b = choose|b: int|
        0 <= b < table.buckets.len() && is_entry_of(
            (#[trigger] table.buckets[b]).bucket,
            component,
            entry,
        );
    let bucket = table.buckets[b].bucket;
    let column = bucket.columns.index_of(component);
    let i = choose|i: int|
        0 <= i < bucket.rows.len() && (#[trigger] bucket.rows[i]).row_id == entry.row_id
            && bucket.rows[i].time == entry.time && bucket.rows[i].cells[column] == Some(
            entry.cell,
        );
    assert(holds_instances(bucket.rows[i].cells[column]));
    assert(bucket_has_data(table.buckets[b].bucket));
}

/// Purging leaves the tables with data, and no others.
pub proof fn lemma_purge_tables(tables: Seq<TableSlot>)
    ensures
        forall|i: int|
            0 <= i < purge_spec(tables).tables.len() ==> tables.contains(
                #[trigger] purge_spec(tables).tables[i],
            ) && table_has_data(purge_spec(tables).tables[i].table),
        forall|t: int|
            0 <= t < tables.len() && table_has_data((#[trigger] tables[t]).table) ==> purge_spec(
                tables,
            ).tables.contains(tables[t]),
    decreases tables.len(),
{
    if tables.len() > 0 {
        let init = tables.drop_last();
        lemma_purge_tables(init);
        let rest = purge_spec(init).tables;
        let all = purge_spec(tables).tables;
        assert forall|i: int| 0 <= i < all.len() implies tables.contains(#[trigger] all[i])
            && table_has_data(all[i].table) by {
            if i < rest.len() {
                assert(all[i] == rest[i]);
                assert(init.contains(rest[i]));
                let k = init.index_of(rest[i]);
                assert(tables[k] == all[i]);
            } else {
                assert(tables[tables.len() - 1] == all[i]);
            }
        }
        assert forall|t: int|
            0 <= t < tables.len() && table_has_data((#[trigger] tables[t]).table) implies all.contains(
            tables[t],
        ) by {
            if t < init.len() {
                assert(init[t] == tables[t]);
                assert(rest.contains(tables[t]));
                let k = rest.index_of(tables[t]);
                assert(all[k] == tables[t]);
            } else {
                assert(all[all.len() - 1] == tables[t]);
            }
        }
    }
}

/// The rows of the last `count` cells of a component that is protected are protected.
proof fn lemma_tail_is_protected(
    tables: Seq<TableSlot>,
    store_insert_ids: bool,
    count: nat,
    dont_protect: Seq<ComponentName>,
    t: int,
    component: Seq<char>,
    n: int,
)
    requires
        tables_valid(tables, store_insert_ids),
        0 <= t < tables.len(),
        !names_contain(dont_protect, component),
        0 <= n <= count,
        n <= entries_in(tables[t].table.buckets, component).len(),
    ensures
        tail_protected(
            entries_in(tables[t].table.buckets, component),
            n,
            protected_rows(tables, count, dont_protect),
        ),
{
    let table = tables[t].table;
    let entries = entries_in(table.buckets, component);
    let protected = protected_rows(tables, count, dont_protect);
    crate::gc::lemma_table_of_valid(tables, store_insert_ids, t);
    assert forall|i: int| entries.len() - n <= i < entries.len() && 0 <= i implies protected.contains(
        (#[trigger] entries[i]).row_id.bits,
    ) by {
        lemma_entry_cells(table.buckets, component, i);
        let b = choose|b: int|
            0 <= b < table.buckets.len() && is_entry_of(
                (#[trigger] table.buckets[b]).bucket,
                component,
                entries[i],
            );
        let columns = table.buckets[b].bucket.columns;
        let c = columns.index_of(component);
        assert(table.all_components.contains(component)) by {
            reveal(TableView::valid);
            assert(table.buckets[b].bucket.columns[c] == component);
        }
        let k = table.all_components.index_of(component);
        assert(last_row_ids(entries, count).contains(entries[i].row_id.bits));
        assert(protects(tables[t].table, count, dont_protect, k, entries[i].row_id.bits));
    }
}

/// Law: a collection leaves the last cells of every component on every timeline, as many as it was
/// told to protect, in the order that they are in. This is before tables without data are purged.
pub proof fn law_latest_cells_survive(
    store: StoreView,
    store_insert_ids: bool,
    bucket_num_rows: u64,
    options: GarbageCollectionOptions,
    time_is_up: spec_fn(int) -> bool,
    t: int,
    component: Seq<char>,
    n: int,
)
    requires
        tables_valid(store.tables, store_insert_ids),
        registry_valid(store.registry),
        0 <= t < store.tables.len(),
        !names_contain(options.dont_protect@, component),
        0 <= n <= options.protect_latest,
        n <= entries_in(store.tables[t].table.buckets, component).len(),
    ensures
        ({
            let end = swept(
                store,
                bucket_num_rows,
                options.enable_batching,
                budget_of(options.target),
                protected_rows(
                    store.tables,
                    options.protect_latest as nat,
                    options.dont_protect@,
                ),
                time_is_up,
            );
            let before = entries_in(store.tables[t].table.buckets, component);
            let after = entries_in(end.tables[t].table.buckets, component);
            n <= after.len() && after.skip(after.len() - n) == before.skip(before.len() - n)
        }),
{
    let protected = protected_rows(
        store.tables,
        options.protect_latest as nat,
        options.dont_protect@,
    );
    let rules = SweepRules {
        enable_batching: options.enable_batching,
        batch_size: batch_size_of(bucket_num_rows),
        protected,
        time_is_up,
    };
    let start = Sweep {
        tables: store.tables,
        heap_size: store.heap_size,
        budget: budget_of(options.target),
        diffs: Seq::empty(),
    };
    assert(rows_proper(store.registry));
    lemma_sweep_keeps(rules, store_insert_ids, start, store.registry, Seq::empty(), false, 0);
    lemma_tail_is_protected(
        store.tables,
        store_insert_ids,
        options.protect_latest as nat,
        options.dont_protect@,
        t,
        component,
        n,
    );
    let end = sweep_rows(rules, start, store.registry, Seq::empty(), false, 0);
    assert(end.tables[t].hash == store.tables[t].hash);
    assert(keeps_tail(
        entries_in(store.tables[t].table.buckets, component),
        entries_in(end.tables[t].table.buckets, component),
        protected,
    ));
}

/// Law: as long as it protects at least the latest cell of a component, a collection does not change
/// what a query for that component at the end of time finds.
///
/// The one exception is a cell without instances, which goes if its table is left without any
/// instances and such tables are purged.
pub proof fn law_latest_at_the_end_of_time_is_unchanged(
    store: StoreView,
    store_insert_ids: bool,
    bucket_num_rows: u64,
    options: GarbageCollectionOptions,
    time_is_up: spec_fn(int) -> bool,
    timeline: Timeline,
    hash: u64,
    component: Seq<char>,
)
    requires
        tables_valid(store.tables, store_insert_ids),
        registry_valid(store.registry),
        options.protect_latest > 0,
        !names_contain(options.dont_protect@, component),
    ensures
        ({
            let query = LatestAtQuery { timeline, at: TimeInt { value: TIME_MAX } };
            let after = collected(store, bucket_num_rows, options, time_is_up).store;
            let found = latest_entry(store, query, hash, component);
            let still_found = latest_entry(after, query, hash, component);
            ||| still_found == found
            ||| options.purge_empty_tables && still_found is None && found is Some
                && found->0.cell.num_instances == 0
        }),
{
    let protected = protected_rows(
        store.tables,
        options.protect_latest as nat,
        options.dont_protect@,
    );
    let rules = SweepRules {
        enable_batching: options.enable_batching,
        batch_size: batch_size_of(bucket_num_rows),
        protected,
        time_is_up,
    };
    let start = Sweep {
        tables: store.tables,
        heap_size: store.heap_size,
        budget: budget_of(options.target),
        diffs: Seq::empty(),
    };
    assert(rows_proper(store.registry));
    lemma_sweep_keeps(rules, store_insert_ids, start, store.registry, Seq::empty(), false, 0);
    let end = sweep_rows(rules, start, store.registry, Seq::empty(), false, 0);
    let purged = purge_spec(end.tables).tables;
    lemma_purge_tables(end.tables);
    let index = slot_index(store.tables, hash, timeline@);
    if let Some(t) = index {
        assert(0 <= t < store.tables.len() && is_table_of(store.tables[t], hash, timeline@));
        assert(end.tables[t].hash == store.tables[t].hash);
        crate::store::lemma_slot_index(end.tables, store_insert_ids, hash, timeline@, t);
        let before = entries_in(store.tables[t].table.buckets, component);
        let after = entries_in(end.tables[t].table.buckets, component);
        assert(keeps_tail(before, after, protected));
        lemma_latest_at_the_end(before);
        lemma_latest_at_the_end(after);
        if before.len() > 0 {
            law_latest_cells_survive(
                store,
                store_insert_ids,
                bucket_num_rows,
                options,
                time_is_up,
                t,
                component,
                1,
            );
            assert(after.skip(after.len() - 1)[0] == before.skip(before.len() - 1)[0]);
            assert(after.last() == before.last());
            if before.last().cell.num_instances > 0 {
                lemma_entry_is_data(end.tables[t].table, component, after.len() - 1);
            }
        }
        if options.purge_empty_tables {
            if table_has_data(end.tables[t].table) {
                assert(purged.contains(end.tables[t]));
                let k = purged.index_of(end.tables[t]);
                assert(is_table_of(purged[k], hash, timeline@));
                let m = slot_index(purged, hash, timeline@)->0;
                lemma_same_slot(end.tables, store_insert_ids, purged, m, t, hash, timeline);
            } else if slot_index(purged, hash, timeline@) is Some {
                let m = slot_index(purged, hash, timeline@)->0;
                lemma_same_slot(end.tables, store_insert_ids, purged, m, t, hash, timeline);
            }
        }
    } else {
        if slot_index(end.tables, hash, timeline@) is Some {
            let t = slot_index(end.tables, hash, timeline@)->0;
            assert(end.tables[t].hash == store.tables[t].hash);
            assert(is_table_of(store.tables[t], hash, timeline@));
        }
        if slot_index(purged, hash, timeline@) is Some {
            let m = slot_index(purged, hash, timeline@)->0;
            assert(end.tables.contains(purged[m]));
            let t = end.tables.index_of(purged[m]);
            assert(end.tables[t].hash == store.tables[t].hash);
            assert(is_table_of(store.tables[t], hash, timeline@));
        }
    }
}

/// There is one table for each entity and timeline, so what purging leaves of it is that one.
proof fn lemma_same_slot(
    tables: Seq<TableSlot>,
    store_insert_ids: bool,
    some: Seq<TableSlot>,
    m: int,
    t: int,
    hash: u64,
    timeline: Timeline,
)
    requires
        tables_valid(tables, store_insert_ids),
        0 <= m < some.len(),
        0 <= t < tables.len(),
        tables.contains(some[m]),
        is_table_of(some[m], hash, timeline@),
        is_table_of(tables[t], hash, timeline@),
    ensures
        some[m] == tables[t],
{
    let k = tables.index_of(some[m]);
    crate::store::lemma_slot_index(tables, store_insert_ids, hash, timeline@, k);
    crate::store::lemma_slot_index(tables, store_insert_ids, hash, timeline@, t);
}

} // verus!

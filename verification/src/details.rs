//! What a collection tells of the rows that go: all of their times and all of their cells.
use crate::bucket::{bucket_without, present, row_index};
use crate::gc::{
    batch_size_of, budget_of, diff_index, drop_buckets, drop_row_at_times, drop_rows, less,
    merge_diff, merge_diffs, opt_seq, rows_temporal, spent, sweep_batch, sweep_rows,
    GarbageCollectionOptions, Sweep, SweepRules,
};
use crate::names::{RowId, TimeInt, TimeType, Timeline, TIME_MIN};
use crate::path::entity_path_hash;
use crate::progress::{lemma_sweep_batch, protected_by, sweep_of};
use crate::reports::{
    holds_row, lemma_diff_index_found, lemma_droppable_covers, lemma_droppable_held,
};
use crate::row::{times_temporal, DataCell, DiffView, StoreDiffKind};
use crate::sorting::BucketRow;
use crate::store::{
    is_table_of, registry_valid, slot_index, tables_valid, RowMeta, StoreView, TableSlot,
};
use crate::survival::lemma_kept_holds;
use crate::table::{
    bucket_diffs, bucket_of, drop_buckets_spec, drop_row_spec, droppable, droppable_buckets,
    full_row_diff, TableBucket, TableView,
};
use re_log_types::EntityPath;
use vstd::prelude::*;

verus! {

/// Whether times have one on a timeline.
pub open spec fn lists(
    times: Seq<(Timeline, TimeInt)>,
    timeline: (Seq<char>, TimeType),
    time: i64,
) -> bool {
    exists|k: int|
        0 <= k < times.len() && (#[trigger] times[k]).0@ == timeline && times[k].1.value == time
}

/// Whether a difference is about a row of a table, and has the time that the table has it at.
pub open spec fn is_about(diff: DiffView, slot: TableSlot, row: BucketRow) -> bool {
    &&& diff.kind == StoreDiffKind::Deletion
    &&& diff.row_id == row.row_id
    &&& entity_path_hash(diff.entity_path) == slot.hash
    &&& lists(diff.times, slot.table.timeline@, row.time)
}

/// Whether a difference has all the cells of a row, and no other ones.
pub open spec fn has_its_cells(diff: DiffView, row: BucketRow) -> bool {
    forall|cell: DataCell| #[trigger]
        diff.cells.contains(cell) <==> row.cells.contains(Some(cell))
}

/// Whether some difference is about a row of a table, and has the time that the table has it at.
pub open spec fn is_told(diffs: Seq<DiffView>, slot: TableSlot, row: BucketRow) -> bool {
    exists|d: int| 0 <= d < diffs.len() && is_about(#[trigger] diffs[d], slot, row)
}

/// Whether a row has no cell.
pub open spec fn is_blank(row: BucketRow) -> bool {
    forall|j: int| 0 <= j < row.cells.len() ==> (#[trigger] row.cells[j]) is None
}

/// Whether two tables are of the same entity and timeline.
pub open spec fn same_place(a: TableSlot, b: TableSlot) -> bool {
    a.hash == b.hash && a.table.timeline@ == b.table.timeline@
}

/// Whether a row of some tables is what a difference is about, and has the cells that it has.
pub open spec fn comes_from(tables: Seq<TableSlot>, diff: DiffView) -> bool {
    exists|t: int, row: BucketRow|
        0 <= t < tables.len() && #[trigger] holds_row(tables[t].table, row) && is_about(
            diff,
            tables[t],
            row,
        ) && has_its_cells(diff, row)
}

/// Whether tables have the row that a difference is about at one of its times.
pub open spec fn was_at(tables: Seq<TableSlot>, diff: DiffView, at: (Timeline, TimeInt)) -> bool {
    exists|t: int, row: BucketRow|
        0 <= t < tables.len() && #[trigger] holds_row(tables[t].table, row) && tables[t].hash
            == entity_path_hash(diff.entity_path) && tables[t].table.timeline@ == at.0@
            && row.row_id == diff.row_id && row.time == at.1.value
}

/// Whether all that a difference says is so.
pub open spec fn is_true_of(tables: Seq<TableSlot>, diff: DiffView) -> bool {
    &&& comes_from(tables, diff)
    &&& forall|k: int|
        0 <= k < diff.times.len() ==> was_at(tables, diff, #[trigger] diff.times[k])
}

pub open spec fn all_true_of(tables: Seq<TableSlot>, diffs: Seq<DiffView>) -> bool {
    forall|d: int| 0 <= d < diffs.len() ==> is_true_of(tables, #[trigger] diffs[d])
}

/// Whether a table only lost rows, and every one of them that had a cell is told of.
pub open spec fn loses(before: TableSlot, after: TableSlot, diffs: Seq<DiffView>) -> bool {
    &&& same_place(before, after)
    &&& forall|row: BucketRow| #[trigger]
        holds_row(after.table, row) ==> holds_row(before.table, row)
    &&& forall|row: BucketRow| #[trigger]
        holds_row(before.table, row) ==> {
            ||| holds_row(after.table, row)
            ||| is_blank(row)
            ||| is_told(diffs, before, row)
        }
}

/// Whether tables only lost rows, and every one of them that had a cell is told of.
pub open spec fn all_lose(
    before: Seq<TableSlot>,
    after: Seq<TableSlot>,
    diffs: Seq<DiffView>,
) -> bool {
    &&& after.len() == before.len()
    &&& forall|t: int| 0 <= t < before.len() ==> loses(before[t], #[trigger] after[t], diffs)
}

// --- Steps.

pub proof fn lemma_present(cells: Seq<Option<DataCell>>)
    ensures
        forall|cell: DataCell| #[trigger]
            present(cells).contains(cell) <==> cells.contains(Some(cell)),
        present(cells).len() == 0 ==> forall|j: int|
            0 <= j < cells.len() ==> (#[trigger] cells[j]) is None,
    decreases cells.len(),
{
    if cells.len() > 0 {
        let init = cells.drop_last();
        let last = cells[cells.len() - 1];
        lemma_present(init);
        let rest = present(init);
        assert forall|cell: DataCell| #[trigger]
            present(cells).contains(cell) <==> cells.contains(Some(cell)) by {
            if rest.contains(cell) {
                let i = choose|i: int| 0 <= i < rest.len() && rest[i] == cell;
                assert(present(cells)[i] == cell);
            }
            if present(cells).contains(cell) {
                let i = choose|i: int| 0 <= i < present(cells).len() && present(cells)[i] == cell;
                if i < rest.len() {
                    assert(rest[i] == cell);
                    assert(rest.contains(cell));
                    let j = choose|j: int| 0 <= j < init.len() && init[j] == Some(cell);
                    assert(cells[j] == Some(cell));
                } else {
                    assert(cells[cells.len() - 1] == Some(cell));
                }
            }
            if cells.contains(Some(cell)) {
                let j = choose|j: int| 0 <= j < cells.len() && cells[j] == Some(cell);
                if j < init.len() {
                    assert(init[j] == Some(cell));
                    assert(rest.contains(cell));
                } else {
                    assert(present(cells)[rest.len() as int] == cell);
                }
            }
        }
        if present(cells).len() == 0 {
            assert forall|j: int| 0 <= j < cells.len() implies (#[trigger] cells[j]) is None by {
                if j < init.len() {
                    assert(init[j] is None);
                }
            }
        }
    }
}

proof fn lemma_told_concat(
    a: Seq<DiffView>,
    b: Seq<DiffView>,
    slot: TableSlot,
    row: BucketRow,
)
    requires
        is_told(a, slot, row) || is_told(b, slot, row),
    ensures
        is_told(a + b, slot, row),
{
    if is_told(a, slot, row) {
        let d = choose|d: int| 0 <= d < a.len() && is_about(#[trigger] a[d], slot, row);
        assert(is_about((a + b)[d], slot, row));
    } else {
        let d = choose|d: int| 0 <= d < b.len() && is_about(#[trigger] b[d], slot, row);
        assert(is_about((a + b)[a.len() + d], slot, row));
    }
}

/// What is told in two steps is told as a whole.
proof fn lemma_loses_trans(
    a: TableSlot,
    b: TableSlot,
    c: TableSlot,
    first: Seq<DiffView>,
    second: Seq<DiffView>,
)
    requires
        loses(a, b, first),
        loses(b, c, second),
    ensures
        loses(a, c, first + second),
{
    assert forall|row: BucketRow| #[trigger] holds_row(a.table, row) implies {
        ||| holds_row(c.table, row)
        ||| is_blank(row)
        ||| is_told(first + second, a, row)
    } by {
        if holds_row(b.table, row) && is_told(second, b, row) {
            let d = choose|d: int| 0 <= d < second.len() && is_about(#[trigger] second[d], b, row);
            assert(is_about(second[d], a, row));
            assert(is_told(second, a, row));
        }
        if is_told(first, a, row) || is_told(second, a, row) {
            lemma_told_concat(first, second, a, row);
        }
    }
}

proof fn lemma_all_lose_trans(
    a: Seq<TableSlot>,
    b: Seq<TableSlot>,
    c: Seq<TableSlot>,
    first: Seq<DiffView>,
    second: Seq<DiffView>,
)
    requires
        all_lose(a, b, first),
        all_lose(b, c, second),
    ensures
        all_lose(a, c, first + second),
{
    assert forall|t: int| 0 <= t < a.len() implies loses(
        a[t],
        #[trigger] c[t],
        first + second,
    ) by {
        assert(loses(a[t], b[t], first));
        lemma_loses_trans(a[t], b[t], c[t], first, second);
    }
}

proof fn lemma_same_loses(slot: TableSlot, diffs: Seq<DiffView>)
    ensures
        loses(slot, slot, diffs),
{
}

proof fn lemma_same_lose(tables: Seq<TableSlot>)
    ensures
        all_lose(tables, tables, Seq::empty()),
{
    assert forall|t: int| 0 <= t < tables.len() implies loses(
        tables[t],
        #[trigger] tables[t],
        Seq::empty(),
    ) by {
        lemma_same_loses(tables[t], Seq::empty());
    }
}

/// What was so later was so before, if rows only went.
proof fn lemma_true_before(
    before: Seq<TableSlot>,
    after: Seq<TableSlot>,
    diffs: Seq<DiffView>,
    diff: DiffView,
)
    requires
        all_lose(before, after, diffs),
        is_true_of(after, diff),
    ensures
        is_true_of(before, diff),
{
    let (t, row) = choose|t: int, row: BucketRow|
        0 <= t < after.len() && #[trigger] holds_row(after[t].table, row) && is_about(
            diff,
            after[t],
            row,
        ) && has_its_cells(diff, row);
    assert(loses(before[t], after[t], diffs));
    assert(holds_row(before[t].table, row));
    assert(is_about(diff, before[t], row));
    assert forall|k: int| 0 <= k < diff.times.len() implies was_at(
        before,
        diff,
        #[trigger] diff.times[k],
    ) by {
        assert(was_at(after, diff, diff.times[k]));
        let (u, r) = choose|u: int, r: BucketRow|
            0 <= u < after.len() && #[trigger] holds_row(after[u].table, r) && after[u].hash
                == entity_path_hash(diff.entity_path) && after[u].table.timeline@
                == diff.times[k].0@ && r.row_id == diff.row_id && r.time == diff.times[k].1.value;
        assert(loses(before[u], after[u], diffs));
        assert(holds_row(before[u].table, r));
    }
}

proof fn lemma_all_true_concat(
    before: Seq<TableSlot>,
    after: Seq<TableSlot>,
    a: Seq<DiffView>,
    b: Seq<DiffView>,
)
    requires
        all_lose(before, after, a),
        all_true_of(before, a),
        all_true_of(after, b),
    ensures
        all_true_of(before, a + b),
{
    assert forall|d: int| 0 <= d < (a + b).len() implies is_true_of(
        before,
        #[trigger] (a + b)[d],
    ) by {
        if d < a.len() {
            assert((a + b)[d] == a[d]);
        } else {
            assert((a + b)[d] == b[d - a.len()]);
            assert(is_true_of(after, b[d - a.len()]));
            lemma_true_before(before, after, a, b[d - a.len()]);
        }
    }
}

// --- Row by row.

proof fn lemma_drop_row_told(tables: Seq<TableSlot>, s: int, row_id: RowId, time: TimeInt)
    requires
        0 <= s < tables.len(),
        tables[s].table.valid(),
        entity_path_hash(tables[s].table.entity_path) == tables[s].hash,
        time.value >= TIME_MIN,
    ensures
        ({
            let dropped = drop_row_spec(tables[s].table, row_id, time);
            &&& loses(
                tables[s],
                TableSlot { hash: tables[s].hash, table: dropped.table },
                opt_seq(dropped.diff),
            )
            &&& dropped.diff matches Some(diff) ==> {
                &&& is_true_of(tables, diff)
                &&& diff.row_id == row_id
                &&& entity_path_hash(diff.entity_path) == tables[s].hash
            }
        }),
{
    let table = tables[s].table;
    let dropped = drop_row_spec(table, row_id, time);
    let after = dropped.table;
    let slot = TableSlot { hash: tables[s].hash, table: after };
    let k = bucket_of(table.buckets, time.value);
    crate::table::lemma_table_bucket_of(table, time.value);
    let bucket = table.buckets[k].bucket;
    if let Some(at) = row_index(bucket.rows, row_id, time.value) {
        assert(0 <= at < bucket.rows.len() && bucket.rows[at].row_id == row_id
            && bucket.rows[at].time == time.value);
        let own = bucket.rows[at];
        assert(holds_row(table, own)) by {
            assert(table.buckets[k].bucket.rows[at] == own);
        }
        lemma_present(own.cells);
        let left = bucket_without(bucket, at);
        if let Some(diff) = dropped.diff {
            assert(diff.times[0].0@ == table.timeline@ && diff.times[0].1.value == own.time);
            assert(is_about(diff, tables[s], own));
            assert(has_its_cells(diff, own));
            assert forall|j: int| 0 <= j < diff.times.len() implies was_at(
                tables,
                diff,
                #[trigger] diff.times[j],
            ) by {
                assert(holds_row(tables[s].table, own));
            }
            assert(is_about(opt_seq(dropped.diff)[0], tables[s], own));
        }
        assert forall|row: BucketRow| #[trigger] holds_row(table, row) implies {
            ||| holds_row(after, row)
            ||| is_blank(row)
            ||| is_told(opt_seq(dropped.diff), tables[s], row)
        } by {
            let (b, i) = choose|b: int, i: int|
                0 <= b < table.buckets.len() && 0 <= i < table.buckets[b].bucket.rows.len()
                    && #[trigger] table.buckets[b].bucket.rows[i] == row;
            if b == k && i == at {
                assert(row == own);
            } else if table.buckets.len() > 1 && left.rows.len() == 0 {
                let b2 = if b < k {
                    b
                } else {
                    b - 1
                };
                assert(table.buckets.remove(k)[b2] == table.buckets[b]);
                assert(after.buckets[b2].bucket.rows[i] == row);
            } else if b == k {
                let i2 = if i < at {
                    i
                } else {
                    i - 1
                };
                assert(after.buckets[b].bucket.rows[i2] == row);
            } else {
                assert(after.buckets[b].bucket.rows[i] == row);
            }
        }
        assert forall|row: BucketRow| #[trigger] holds_row(after, row) implies holds_row(
            table,
            row,
        ) by {
            let (b, i) = choose|b: int, i: int|
                0 <= b < after.buckets.len() && 0 <= i < after.buckets[b].bucket.rows.len()
                    && #[trigger] after.buckets[b].bucket.rows[i] == row;
            if table.buckets.len() > 1 && left.rows.len() == 0 {
                let b2 = if b < k {
                    b
                } else {
                    b + 1
                };
                assert(table.buckets.remove(k)[b] == table.buckets[b2]);
                assert(table.buckets[b2].bucket.rows[i] == row);
            } else if b == k {
                let i2 = if i < at {
                    i
                } else {
                    i + 1
                };
                assert(table.buckets[b].bucket.rows[i2] == row);
            } else {
                assert(table.buckets[b].bucket.rows[i] == row);
            }
        }
    } else {
        lemma_same_loses(tables[s], opt_seq(dropped.diff));
        assert(slot == tables[s]);
    }
}

proof fn lemma_hash_of_table(tables: Seq<TableSlot>, store_insert_ids: bool, i: int)
    requires
        tables_valid(tables, store_insert_ids),
        0 <= i < tables.len(),
    ensures
        entity_path_hash(tables[i].table.entity_path) == tables[i].hash,
{
    reveal(tables_valid);
}

/// Times that are put together list what either of them does.
pub proof fn lemma_lists_more(a: Seq<(Timeline, TimeInt)>, b: Seq<(Timeline, TimeInt)>)
    ensures
        forall|timeline: (Seq<char>, TimeType), time: i64| #[trigger]
            lists(a, timeline, time) ==> lists(a + b, timeline, time),
        forall|timeline: (Seq<char>, TimeType), time: i64| #[trigger]
            lists(b, timeline, time) ==> lists(a + b, timeline, time),
{
    assert forall|timeline: (Seq<char>, TimeType), time: i64| #[trigger]
        lists(a, timeline, time) implies lists(a + b, timeline, time) by {
        let k = choose|k: int|
            0 <= k < a.len() && (#[trigger] a[k]).0@ == timeline && a[k].1.value == time;
        assert((a + b)[k] == a[k]);
    }
    assert forall|timeline: (Seq<char>, TimeType), time: i64| #[trigger]
        lists(b, timeline, time) implies lists(a + b, timeline, time) by {
        let k = choose|k: int|
            0 <= k < b.len() && (#[trigger] b[k]).0@ == timeline && b[k].1.value == time;
        assert((a + b)[a.len() + k] == b[k]);
    }
}

/// What is put together of two true differences about the same row is true.
proof fn lemma_merged_true(tables: Seq<TableSlot>, a: DiffView, b: DiffView)
    requires
        is_true_of(tables, a),
        is_true_of(tables, b),
        a.row_id == b.row_id,
        entity_path_hash(a.entity_path) == entity_path_hash(b.entity_path),
    ensures
        is_true_of(tables, DiffView { times: a.times + b.times, ..a }),
        forall|slot: TableSlot, row: BucketRow|
            #![trigger is_about(a, slot, row)]
            #![trigger is_about(b, slot, row)]
            is_about(a, slot, row) || is_about(b, slot, row) ==> is_about(
                DiffView { times: a.times + b.times, ..a },
                slot,
                row,
            ),
{
    let c = DiffView { times: a.times + b.times, ..a };
    lemma_lists_more(a.times, b.times);
    let (t, row) = choose|t: int, row: BucketRow|
        0 <= t < tables.len() && #[trigger] holds_row(tables[t].table, row) && is_about(
            a,
            tables[t],
            row,
        ) && has_its_cells(a, row);
    assert(is_about(c, tables[t], row));
    assert(has_its_cells(c, row));
    assert forall|k: int| 0 <= k < c.times.len() implies was_at(
        tables,
        c,
        #[trigger] c.times[k],
    ) by {
        let d = if k < a.times.len() {
            a
        } else {
            b
        };
        let j = if k < a.times.len() {
            k
        } else {
            k - a.times.len()
        };
        assert(c.times[k] == d.times[j]);
        assert(was_at(tables, d, d.times[j]));
        let (u, r) = choose|u: int, r: BucketRow|
            0 <= u < tables.len() && #[trigger] holds_row(tables[u].table, r) && tables[u].hash
                == entity_path_hash(d.entity_path) && tables[u].table.timeline@ == d.times[j].0@
                && r.row_id == d.row_id && r.time == d.times[j].1.value;
        assert(holds_row(tables[u].table, r));
    }
}

pub proof fn lemma_drop_row_at_times_told(
    tables: Seq<TableSlot>,
    store_insert_ids: bool,
    hash: u64,
    row_id: RowId,
    times: Seq<(Timeline, TimeInt)>,
)
    requires
        tables_valid(tables, store_insert_ids),
        times_temporal(times),
    ensures
        ({
            let dropped = drop_row_at_times(tables, hash, row_id, times);
            &&& all_lose(tables, dropped.tables, opt_seq(dropped.diff))
            &&& dropped.diff matches Some(diff) ==> {
                &&& is_true_of(tables, diff)
                &&& diff.row_id == row_id
                &&& entity_path_hash(diff.entity_path) == hash
            }
        }),
    decreases times.len(),
{
    if times.len() == 0 {
        lemma_same_lose(tables);
    } else {
        let init = times.drop_last();
        assert(times_temporal(init)) by {
            assert forall|i: int| 0 <= i < init.len() implies (#[trigger] init[i]).1.value
                >= TIME_MIN by {
                assert(times[i].1.value >= TIME_MIN);
            }
        }
        assert(times[times.len() - 1].1.value >= TIME_MIN);
        lemma_drop_row_at_times_told(tables, store_insert_ids, hash, row_id, init);
        crate::gc::lemma_drop_row_at_times_valid(tables, store_insert_ids, hash, row_id, init);
        let st = drop_row_at_times(tables, hash, row_id, init);
        let end = drop_row_at_times(tables, hash, row_id, times);
        let (timeline, time) = times.last();
        if let Some(i) = slot_index(st.tables, hash, timeline@) {
            assert(0 <= i < st.tables.len() && is_table_of(st.tables[i], hash, timeline@));
            crate::gc::lemma_table_of_valid(st.tables, store_insert_ids, i);
            lemma_hash_of_table(st.tables, store_insert_ids, i);
            lemma_drop_row_told(st.tables, i, row_id, time);
            let dropped = drop_row_spec(st.tables[i].table, row_id, time);
            assert(all_lose(st.tables, end.tables, opt_seq(dropped.diff))) by {
                assert forall|t: int| 0 <= t < st.tables.len() implies loses(
                    st.tables[t],
                    #[trigger] end.tables[t],
                    opt_seq(dropped.diff),
                ) by {
                    if t != i {
                        assert(end.tables[t] == st.tables[t]);
                        lemma_same_loses(st.tables[t], opt_seq(dropped.diff));
                    }
                }
            }
            let both = opt_seq(st.diff) + opt_seq(dropped.diff);
            lemma_all_lose_trans(
                tables,
                st.tables,
                end.tables,
                opt_seq(st.diff),
                opt_seq(dropped.diff),
            );
            if let Some(diff) = dropped.diff {
                lemma_true_before(tables, st.tables, opt_seq(st.diff), diff);
                if let Some(earlier) = st.diff {
                    lemma_merged_true(tables, earlier, diff);
                    let one = opt_seq(end.diff);
                    assert forall|t: int| 0 <= t < tables.len() implies loses(
                        tables[t],
                        #[trigger] end.tables[t],
                        one,
                    ) by {
                        assert(loses(tables[t], end.tables[t], both));
                        assert forall|row: BucketRow| #[trigger]
                            holds_row(tables[t].table, row) implies {
                            ||| holds_row(end.tables[t].table, row)
                            ||| is_blank(row)
                            ||| is_told(one, tables[t], row)
                        } by {
                            if is_told(both, tables[t], row) {
                                let d = choose|d: int|
                                    0 <= d < both.len() && is_about(
                                        #[trigger] both[d],
                                        tables[t],
                                        row,
                                    );
                                assert(both[0] == earlier && both[1] == diff);
                                assert(is_about(one[0], tables[t], row));
                            }
                        }
                    }
                } else {
                    assert(both =~= opt_seq(end.diff));
                }
            } else {
                assert(both =~= opt_seq(end.diff));
            }
        }
    }
}

proof fn lemma_drop_rows_told(
    tables: Seq<TableSlot>,
    store_insert_ids: bool,
    budget: Option<u128>,
    rows: Seq<RowMeta>,
)
    requires
        tables_valid(tables, store_insert_ids),
        rows_temporal(rows),
    ensures
        ({
            let end = drop_rows(tables, budget, rows);
            &&& all_lose(tables, end.tables, end.diffs)
            &&& all_true_of(tables, end.diffs)
        }),
    decreases rows.len(),
{
    if rows.len() == 0 {
        lemma_same_lose(tables);
    } else {
        let init = rows.drop_last();
        assert forall|i: int| 0 <= i < init.len() implies times_temporal(
            (#[trigger] init[i]).times,
        ) by {
            assert(times_temporal(rows[i].times));
        }
        lemma_drop_rows_told(tables, store_insert_ids, budget, init);
        crate::gc::lemma_drop_rows_valid(tables, store_insert_ids, budget, init);
        let st = drop_rows(tables, budget, init);
        let row = rows[rows.len() - 1];
        assert(times_temporal(row.times));
        lemma_drop_row_at_times_told(
            st.tables,
            store_insert_ids,
            row.hash,
            row.row_id,
            row.times,
        );
        let dropped = drop_row_at_times(st.tables, row.hash, row.row_id, row.times);
        lemma_all_lose_trans(
            tables,
            st.tables,
            dropped.tables,
            st.diffs,
            opt_seq(dropped.diff),
        );
        lemma_all_true_concat(tables, st.tables, st.diffs, opt_seq(dropped.diff));
    }
}

// --- Bucket by bucket.

pub proof fn lemma_bucket_diffs_have(
    buckets: Seq<TableBucket>,
    timeline: Timeline,
    entity_path: EntityPath,
    b: int,
    i: int,
) -> (d: int)
    requires
        0 <= b < buckets.len(),
        0 <= i < buckets[b].bucket.rows.len(),
    ensures
        0 <= d < bucket_diffs(buckets, timeline, entity_path).len(),
        bucket_diffs(buckets, timeline, entity_path)[d] == full_row_diff(
            buckets[b].bucket.rows[i],
            timeline,
            entity_path,
        ),
    decreases buckets.len(),
{
    let init = buckets.drop_last();
    let before = bucket_diffs(init, timeline, entity_path);
    if b < init.len() {
        lemma_bucket_diffs_have(init, timeline, entity_path, b, i)
    } else {
        before.len() + i
    }
}

pub proof fn lemma_bucket_diffs_are(
    buckets: Seq<TableBucket>,
    timeline: Timeline,
    entity_path: EntityPath,
    d: int,
) -> (at: (int, int))
    requires
        0 <= d < bucket_diffs(buckets, timeline, entity_path).len(),
    ensures
        0 <= at.0 < buckets.len(),
        0 <= at.1 < buckets[at.0].bucket.rows.len(),
        bucket_diffs(buckets, timeline, entity_path)[d] == full_row_diff(
            buckets[at.0].bucket.rows[at.1],
            timeline,
            entity_path,
        ),
    decreases buckets.len(),
{
    let init = buckets.drop_last();
    let before = bucket_diffs(init, timeline, entity_path);
    if d < before.len() {
        lemma_bucket_diffs_are(init, timeline, entity_path, d)
    } else {
        (init.len() as int, d - before.len())
    }
}

proof fn lemma_drop_buckets_spec_told(
    tables: Seq<TableSlot>,
    s: int,
    max: RowId,
    protected: Set<u128>,
)
    requires
        0 <= s < tables.len(),
        tables[s].table.valid(),
        entity_path_hash(tables[s].table.entity_path) == tables[s].hash,
    ensures
        ({
            let dropped = drop_buckets_spec(tables[s].table, max, protected);
            &&& loses(
                tables[s],
                TableSlot { hash: tables[s].hash, table: dropped.table },
                dropped.diffs,
            )
            &&& all_true_of(tables, dropped.diffs)
            &&& all_of(dropped.diffs, tables[s].hash)
        }),
{
    reveal(TableView::valid);
    let table = tables[s].table;
    let dropped = drop_buckets_spec(table, max, protected);
    let after = dropped.table;
    let gone = droppable_buckets(table.buckets, max, protected);
    let kept = crate::table::kept_buckets(table.buckets, max, protected);
    crate::table::lemma_kept(table.buckets, max, protected);
    assert forall|row: BucketRow| #[trigger] holds_row(table, row) implies {
        ||| holds_row(after, row)
        ||| is_blank(row)
        ||| is_told(dropped.diffs, tables[s], row)
    } by {
        let (b, i) = choose|b: int, i: int|
            0 <= b < table.buckets.len() && 0 <= i < table.buckets[b].bucket.rows.len()
                && #[trigger] table.buckets[b].bucket.rows[i] == row;
        if droppable(table.buckets[b].bucket, max, protected) {
            let a = lemma_droppable_covers(table.buckets, max, protected, b);
            let d = lemma_bucket_diffs_have(gone, table.timeline, table.entity_path, a, i);
            assert(table.buckets[b].bucket.valid());
            assert(dropped.diffs[d].times[0].0@ == table.timeline@
                && dropped.diffs[d].times[0].1.value == row.time);
            assert(is_about(dropped.diffs[d], tables[s], row));
        } else {
            let a = lemma_kept_holds(table.buckets, max, protected, b);
            assert(after.buckets[a].bucket.rows[i] == row);
        }
    }
    assert forall|row: BucketRow| #[trigger] holds_row(after, row) implies holds_row(
        table,
        row,
    ) by {
        let (a, i) = choose|a: int, i: int|
            0 <= a < after.buckets.len() && 0 <= i < after.buckets[a].bucket.rows.len()
                && #[trigger] after.buckets[a].bucket.rows[i] == row;
        assert(kept.len() > 0);
        let b = crate::table::kept_indices(table.buckets, max, protected)[a];
        assert(kept[a] == table.buckets[b]);
        assert(table.buckets[b].bucket.rows[i] == row);
    }
    assert forall|d: int| 0 <= d < dropped.diffs.len() implies is_true_of(
        tables,
        #[trigger] dropped.diffs[d],
    ) && entity_path_hash(dropped.diffs[d].entity_path) == tables[s].hash by {
        let diff = dropped.diffs[d];
        let (a, i) = lemma_bucket_diffs_are(gone, table.timeline, table.entity_path, d);
        let b = lemma_droppable_held(table.buckets, max, protected, a);
        let row = table.buckets[b].bucket.rows[i];
        assert(holds_row(tables[s].table, row)) by {
            assert(table.buckets[b].bucket.rows[i] == row);
        }
        assert(table.buckets[b].bucket.valid());
        lemma_present(row.cells);
        assert(diff.times[0].0@ == table.timeline@ && diff.times[0].1.value == row.time);
        assert(is_about(diff, tables[s], row));
        assert(has_its_cells(diff, row));
        assert forall|k: int| 0 <= k < diff.times.len() implies was_at(
            tables,
            diff,
            #[trigger] diff.times[k],
        ) by {
            assert(holds_row(tables[s].table, row));
        }
    }
}

/// Whether differences are all about one entity.
pub open spec fn all_of(diffs: Seq<DiffView>, hash: u64) -> bool {
    forall|d: int|
        0 <= d < diffs.len() ==> entity_path_hash((#[trigger] diffs[d]).entity_path) == hash
}

/// Merging differences about one entity loses nothing and makes up nothing.
proof fn lemma_merge_told(
    tables: Seq<TableSlot>,
    diffs: Seq<DiffView>,
    removed: Seq<DiffView>,
    hash: u64,
)
    requires
        all_true_of(tables, diffs),
        all_true_of(tables, removed),
        all_of(diffs, hash),
        all_of(removed, hash),
    ensures
        all_true_of(tables, merge_diffs(diffs, removed)),
        all_of(merge_diffs(diffs, removed), hash),
        forall|slot: TableSlot, row: BucketRow|
            #![trigger is_told(merge_diffs(diffs, removed), slot, row)]
            is_told(diffs, slot, row) || is_told(removed, slot, row) ==> is_told(
                merge_diffs(diffs, removed),
                slot,
                row,
            ),
    decreases removed.len(),
{
    if removed.len() > 0 {
        let init = removed.drop_last();
        let last = removed[removed.len() - 1];
        assert forall|d: int| 0 <= d < init.len() implies is_true_of(tables, #[trigger] init[d])
            && entity_path_hash(init[d].entity_path) == hash by {
            assert(is_true_of(tables, removed[d]));
        }
        assert(is_true_of(tables, last));
        lemma_merge_told(tables, diffs, init, hash);
        let rest = merge_diffs(diffs, init);
        let all = merge_diffs(diffs, removed);
        lemma_diff_index_found(rest, last.row_id);
        assert(all == merge_diff(rest, last));
        let found = diff_index(rest, last.row_id);
        if let Some(i) = found {
            assert(is_true_of(tables, rest[i]));
            assert(entity_path_hash(rest[i].entity_path) == hash);
            lemma_merged_true(tables, rest[i], last);
        }
        assert forall|d: int| 0 <= d < all.len() implies is_true_of(tables, #[trigger] all[d])
            && entity_path_hash(all[d].entity_path) == hash by {
            if found != Some(d) && d < rest.len() {
                assert(all[d] == rest[d]);
                assert(is_true_of(tables, rest[d]));
            }
        }
        assert forall|slot: TableSlot, row: BucketRow|
            #![trigger is_told(all, slot, row)]
            is_told(diffs, slot, row) || is_told(removed, slot, row) implies is_told(
            all,
            slot,
            row,
        ) by {
            if is_told(removed, slot, row) {
                let d = choose|d: int|
                    0 <= d < removed.len() && is_about(#[trigger] removed[d], slot, row);
                if d < init.len() {
                    assert(is_about(init[d], slot, row));
                    assert(is_told(init, slot, row));
                } else {
                    if let Some(i) = found {
                        assert(is_about(last, slot, row));
                        assert(is_about(all[i], slot, row));
                    } else {
                        assert(is_about(all[rest.len() as int], slot, row));
                    }
                }
            }
            if is_told(diffs, slot, row) || is_told(init, slot, row) {
                assert(is_told(rest, slot, row));
                let d = choose|d: int| 0 <= d < rest.len() && is_about(#[trigger] rest[d], slot, row);
                if found == Some(d) {
                    assert(is_about(rest[d], slot, row));
                }
                assert(is_about(all[d], slot, row));
            }
        }
    }
}

proof fn lemma_true_of_more(tables: Seq<TableSlot>, n: int, diff: DiffView)
    requires
        0 <= n <= tables.len(),
        is_true_of(tables.take(n), diff),
    ensures
        is_true_of(tables, diff),
{
    let some = tables.take(n);
    let (t, row) = choose|t: int, row: BucketRow|
        0 <= t < some.len() && #[trigger] holds_row(some[t].table, row) && is_about(
            diff,
            some[t],
            row,
        ) && has_its_cells(diff, row);
    assert(holds_row(tables[t].table, row) && is_about(diff, tables[t], row));
    assert forall|k: int| 0 <= k < diff.times.len() implies was_at(
        tables,
        diff,
        #[trigger] diff.times[k],
    ) by {
        assert(was_at(some, diff, diff.times[k]));
        let (u, r) = choose|u: int, r: BucketRow|
            0 <= u < some.len() && #[trigger] holds_row(some[u].table, r) && some[u].hash
                == entity_path_hash(diff.entity_path) && some[u].table.timeline@
                == diff.times[k].0@ && r.row_id == diff.row_id && r.time == diff.times[k].1.value;
        assert(holds_row(tables[u].table, r));
    }
}

proof fn lemma_drop_buckets_told(
    tables: Seq<TableSlot>,
    store_insert_ids: bool,
    max: RowId,
    protected: Set<u128>,
)
    requires
        tables_valid(tables, store_insert_ids),
    ensures
        ({
            let dropped = drop_buckets(tables, max, protected);
            &&& all_lose(tables, dropped.tables, dropped.diffs + dropped.pending)
            &&& all_true_of(tables, dropped.diffs + dropped.pending)
            &&& all_true_of(tables, dropped.pending)
            &&& dropped.hash matches Some(hash) ==> all_of(dropped.pending, hash)
        }),
    decreases tables.len(),
{
    let end = drop_buckets(tables, max, protected);
    if tables.len() == 0 {
        lemma_same_lose(tables);
        assert(end.diffs + end.pending =~= Seq::empty());
    } else {
        let init = tables.drop_last();
        let n = init.len() as int;
        let slot = tables.last();
        assert(init =~= tables.take(n));
        crate::gc::lemma_tables_prefix_valid(tables, store_insert_ids, n);
        crate::gc::lemma_table_of_valid(tables, store_insert_ids, n);
        lemma_hash_of_table(tables, store_insert_ids, n);
        lemma_drop_buckets_told(init, store_insert_ids, max, protected);
        lemma_drop_buckets_spec_told(tables, n, max, protected);
        let st = drop_buckets(init, max, protected);
        let dropped = drop_buckets_spec(slot.table, max, protected);
        let same_entity = st.hash == Some(slot.hash);
        let earlier = if same_entity {
            st.pending
        } else {
            Seq::empty()
        };
        let before = st.diffs + st.pending;
        let all = end.diffs + end.pending;
        assert forall|d: int| 0 <= d < before.len() implies is_true_of(
            tables,
            #[trigger] before[d],
        ) by {
            assert(is_true_of(init, before[d]));
            lemma_true_of_more(tables, n, before[d]);
        }
        assert forall|d: int| 0 <= d < earlier.len() implies is_true_of(
            tables,
            #[trigger] earlier[d],
        ) by {
            assert(before[st.diffs.len() + d] == earlier[d]);
        }
        lemma_merge_told(tables, earlier, dropped.diffs, slot.hash);
        assert forall|d: int| 0 <= d < all.len() implies is_true_of(tables, #[trigger] all[d]) by {
            if d < end.diffs.len() {
                assert(all[d] == before[d]);
                assert(is_true_of(tables, before[d]));
            } else {
                assert(all[d] == end.pending[d - end.diffs.len()]);
            }
        }
        assert forall|t: int| 0 <= t < tables.len() implies loses(
            tables[t],
            #[trigger] end.tables[t],
            all,
        ) by {
            if t < n {
                assert(end.tables[t] == st.tables[t]);
                assert(init[t] == tables[t]);
                assert(loses(init[t], st.tables[t], before));
            } else {
                assert(end.tables[t] == TableSlot { hash: slot.hash, table: dropped.table });
            }
            assert forall|row: BucketRow| #[trigger] holds_row(tables[t].table, row) implies {
                ||| holds_row(end.tables[t].table, row)
                ||| is_blank(row)
                ||| is_told(all, tables[t], row)
            } by {
                if t < n && is_told(before, tables[t], row) {
                    let d = choose|d: int|
                        0 <= d < before.len() && is_about(#[trigger] before[d], tables[t], row);
                    if d < end.diffs.len() {
                        assert(all[d] == before[d]);
                        assert(is_about(all[d], tables[t], row));
                    } else {
                        assert(earlier[d - st.diffs.len()] == before[d]);
                        assert(is_about(earlier[d - st.diffs.len()], tables[t], row));
                        assert(is_told(earlier, tables[t], row));
                        assert(is_told(end.pending, tables[t], row));
                        lemma_told_concat(end.diffs, end.pending, tables[t], row);
                    }
                } else if t == n && is_told(dropped.diffs, tables[t], row) {
                    assert(is_told(end.pending, tables[t], row));
                    lemma_told_concat(end.diffs, end.pending, tables[t], row);
                }
            }
        }
    }
}

// --- A whole collection.

proof fn lemma_batch_told(
    rules: SweepRules,
    store_insert_ids: bool,
    at: Sweep,
    batch: Seq<RowMeta>,
    batch_is_protected: bool,
) -> (more: Seq<DiffView>)
    requires
        tables_valid(at.tables, store_insert_ids),
        rows_temporal(batch),
    ensures
        ({
            let end = sweep_batch(rules, at, batch, batch_is_protected);
            &&& end.diffs == at.diffs + more
            &&& tables_valid(end.tables, store_insert_ids)
            &&& all_lose(at.tables, end.tables, more)
            &&& all_true_of(at.tables, more)
        }),
{
    lemma_sweep_batch(rules, store_insert_ids, at, batch, batch_is_protected);
    let (tables, first, budget) = if rules.enable_batching && batch.len() > 0
        && !batch_is_protected {
        let max = batch.last().row_id;
        let dropped = drop_buckets(at.tables, max, rules.protected);
        lemma_drop_buckets_told(at.tables, store_insert_ids, max, rules.protected);
        crate::gc::lemma_drop_buckets_tables(at.tables, store_insert_ids, max, rules.protected);
        (
            dropped.tables,
            dropped.diffs + dropped.pending,
            less(at.budget, dropped.num_bytes),
        )
    } else {
        lemma_same_lose(at.tables);
        (at.tables, Seq::empty(), at.budget)
    };
    if spent(budget) {
        first
    } else {
        lemma_drop_rows_told(tables, store_insert_ids, budget, batch);
        let rows = drop_rows(tables, budget, batch);
        lemma_all_lose_trans(at.tables, tables, rows.tables, first, rows.diffs);
        lemma_all_true_concat(at.tables, tables, first, rows.diffs);
        first + rows.diffs
    }
}

proof fn lemma_sweep_told(
    rules: SweepRules,
    store_insert_ids: bool,
    at: Sweep,
    rows: Seq<RowMeta>,
    batch: Seq<RowMeta>,
    batch_is_protected: bool,
    num_batches: int,
) -> (more: Seq<DiffView>)
    requires
        tables_valid(at.tables, store_insert_ids),
        rows_temporal(batch),
        rows_temporal(rows),
    ensures
        ({
            let end = sweep_rows(rules, at, rows, batch, batch_is_protected, num_batches);
            &&& end.diffs == at.diffs + more
            &&& tables_valid(end.tables, store_insert_ids)
            &&& all_lose(at.tables, end.tables, more)
            &&& all_true_of(at.tables, more)
        }),
    decreases rows.len(),
{
    if rows.len() == 0 {
        lemma_batch_told(rules, store_insert_ids, at, batch, batch_is_protected)
    } else {
        let row = rows[0];
        let rest = rows.skip(1);
        let full = batch.push(row);
        assert(times_temporal(row.times));
        assert forall|i: int| 0 <= i < rest.len() implies times_temporal(
            (#[trigger] rest[i]).times,
        ) by {
            assert(times_temporal(rows[i + 1].times));
        }
        assert forall|i: int| 0 <= i < full.len() implies times_temporal(
            (#[trigger] full[i]).times,
        ) by {
            if i < batch.len() {
                assert(times_temporal(batch[i].times));
            }
        }
        if rules.protected.contains(row.row_id.bits) {
            lemma_sweep_told(rules, store_insert_ids, at, rest, batch, true, num_batches)
        } else if full.len() < rules.batch_size {
            lemma_sweep_told(
                rules,
                store_insert_ids,
                at,
                rest,
                full,
                batch_is_protected,
                num_batches,
            )
        } else {
            let then = sweep_batch(rules, at, full, batch_is_protected);
            let end = sweep_rows(rules, at, rows, batch, batch_is_protected, num_batches);
            let first = lemma_batch_told(rules, store_insert_ids, at, full, batch_is_protected);
            let second = if (rules.time_is_up)(num_batches) || spent(then.budget) {
                lemma_batch_told(rules, store_insert_ids, then, full, batch_is_protected)
            } else {
                lemma_sweep_told(
                    rules,
                    store_insert_ids,
                    then,
                    rest,
                    Seq::empty(),
                    false,
                    num_batches + 1,
                )
            };
            lemma_all_lose_trans(at.tables, then.tables, end.tables, first, second);
            lemma_all_true_concat(at.tables, then.tables, first, second);
            assert(at.diffs + first + second =~= at.diffs + (first + second));
            first + second
        }
    }
}

/// Law: of every row that goes, a collection tells at which times it was there, on all timelines.
/// All times that it tells of are such, and it tells of the cells that the row had, all of them.
/// This is before tables without data are purged.
pub proof fn law_all_times_and_cells_are_told(
    store: StoreView,
    store_insert_ids: bool,
    bucket_num_rows: u64,
    options: GarbageCollectionOptions,
    time_is_up: spec_fn(int) -> bool,
)
    requires
        tables_valid(store.tables, store_insert_ids),
        registry_valid(store.registry),
    ensures
        ({
            let end = sweep_of(store, bucket_num_rows, options, time_is_up);
            &&& all_lose(store.tables, end.tables, end.diffs)
            &&& all_true_of(store.tables, end.diffs)
        }),
{
    let end = sweep_of(store, bucket_num_rows, options, time_is_up);
    let more = lemma_sweep_told(
        SweepRules {
            enable_batching: options.enable_batching,
            batch_size: batch_size_of(bucket_num_rows),
            protected: protected_by(store, options),
            time_is_up,
        },
        store_insert_ids,
        Sweep {
            tables: store.tables,
            heap_size: store.heap_size,
            budget: budget_of(options.target),
            diffs: Seq::empty(),
        },
        store.registry,
        Seq::empty(),
        false,
        0,
    );
    assert(end.diffs =~= more);
}

} // verus!

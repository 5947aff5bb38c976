//! Rows in the order of time and row id, and what that order determines.
use crate::names::RowId;
use crate::row::DataCell;
use vstd::prelude::*;

verus! {

/// One row of a bucket: a cell, or the lack of one, for each column.
#[verifier::ext_equal]
pub struct BucketRow {
    pub time: i64,
    pub row_id: RowId,
    pub insert_id: Option<u64>,
    pub cells: Seq<Option<DataCell>>,
}

/// Whether one row comes before another: by time, and at the same time by row id.
pub open spec fn row_before(a: BucketRow, b: BucketRow) -> bool {
    a.time < b.time || (a.time == b.time && a.row_id.bits < b.row_id.bits)
}

/// Whether rows are in order, no two of them at the same place in it.
pub open spec fn rows_sorted(rows: Seq<BucketRow>) -> bool {
    forall|i: int, j: int|
        #![trigger rows[i], rows[j]]
        0 <= i < j < rows.len() ==> row_before(rows[i], rows[j])
}

/// Whether no two rows have the same id.
pub open spec fn row_ids_distinct(rows: Seq<BucketRow>) -> bool {
    forall|i: int, j: int|
        #![trigger rows[i], rows[j]]
        0 <= i < j < rows.len() ==> rows[i].row_id != rows[j].row_id
}

/// Sorted rows with one more put in its place.
pub open spec fn insert_sorted(rows: Seq<BucketRow>, row: BucketRow) -> Seq<BucketRow>
    decreases rows.len(),
{
    if rows.len() == 0 || row_before(rows.last(), row) {
        rows.push(row)
    } else {
        insert_sorted(rows.drop_last(), row).push(rows.last())
    }
}

/// Rows put in order.
pub open spec fn ordered(rows: Seq<BucketRow>) -> Seq<BucketRow>
    decreases rows.len(),
{
    if rows.len() == 0 {
        rows
    } else {
        insert_sorted(ordered(rows.drop_last()), rows.last())
    }
}

pub proof fn lemma_insert_sorted_at(rows: Seq<BucketRow>, row: BucketRow, at: int)
    requires
        0 <= at <= rows.len(),
        at > 0 ==> row_before(rows[at - 1], row),
        forall|j: int| at <= j < rows.len() ==> !row_before(#[trigger] rows[j], row),
    ensures
        insert_sorted(rows, row) == rows.insert(at, row),
    decreases rows.len(),
{
    if at == rows.len() {
        assert(rows.insert(at, row) =~= rows.push(row));
    } else {
        assert(!row_before(rows[rows.len() - 1], row));
        let init = rows.drop_last();
        assert forall|j: int| at <= j < init.len() implies !row_before(#[trigger] init[j], row) by {
            assert(!row_before(rows[j], row));
        }
        lemma_insert_sorted_at(init, row, at);
        assert(rows.insert(at, row) =~= init.insert(at, row).push(rows.last()));
    }
}

pub proof fn lemma_insert_sorted(rows: Seq<BucketRow>, row: BucketRow)
    requires
        rows_sorted(rows),
        forall|j: int| 0 <= j < rows.len() ==> (#[trigger] rows[j]).row_id != row.row_id,
    ensures
        rows_sorted(insert_sorted(rows, row)),
        insert_sorted(rows, row).len() == rows.len() + 1,
        forall|x: BucketRow|
            #![trigger insert_sorted(rows, row).contains(x)]
            #![trigger rows.contains(x)]
            insert_sorted(rows, row).contains(x) <==> (rows.contains(x) || x == row),
    decreases rows.len(),
{
    let out = insert_sorted(rows, row);
    if rows.len() == 0 || row_before(rows.last(), row) {
        assert forall|i: int, j: int|
            #![trigger out[i], out[j]]
            0 <= i < j < out.len() implies row_before(out[i], out[j]) by {
            if j == rows.len() {
                if i < rows.len() - 1 {
                    assert(row_before(rows[i], rows[rows.len() - 1]));
                }
            } else {
                assert(row_before(rows[i], rows[j]));
            }
        }
        assert forall|x: BucketRow|
            #![trigger out.contains(x)]
            #![trigger rows.contains(x)]
            out.contains(x) <==> (rows.contains(x) || x == row) by {
            if rows.contains(x) {
                let i = rows.index_of(x);
                assert(out[i] == x);
            }
            if x == row {
                assert(out[rows.len() as int] == x);
            }
        }
    } else {
        let init = rows.drop_last();
        let rest = insert_sorted(init, row);
        assert forall|j: int| 0 <= j < init.len() implies (#[trigger] init[j]).row_id
            != row.row_id by {
            assert(rows[j].row_id != row.row_id);
        }
        assert(rows_sorted(init)) by {
            assert forall|i: int, j: int|
                #![trigger init[i], init[j]]
                0 <= i < j < init.len() implies row_before(init[i], init[j]) by {
                assert(row_before(rows[i], rows[j]));
            }
        }
        lemma_insert_sorted(init, row);
        let last = rows.last();
        assert(rows[rows.len() - 1].row_id != row.row_id);
        assert(row_before(row, last));
        assert forall|i: int, j: int|
            #![trigger out[i], out[j]]
            0 <= i < j < out.len() implies row_before(out[i], out[j]) by {
            if j == rest.len() {
                assert(rest.contains(rest[i]));
                if init.contains(rest[i]) {
                    let k = init.index_of(rest[i]);
                    assert(row_before(rows[k], rows[rows.len() - 1]));
                }
            } else {
                assert(row_before(rest[i], rest[j]));
            }
        }
        assert forall|x: BucketRow|
            #![trigger out.contains(x)]
            #![trigger rows.contains(x)]
            out.contains(x) <==> (rows.contains(x) || x == row) by {
            if out.contains(x) {
                let i = out.index_of(x);
                if i < rest.len() {
                    assert(rest.contains(rest[i]));
                    if init.contains(x) {
                        assert(rows[init.index_of(x)] == x);
                    }
                } else {
                    assert(rows[rows.len() - 1] == x);
                }
            }
            if rows.contains(x) {
                let i = rows.index_of(x);
                if i < init.len() {
                    assert(init[i] == x);
                    assert(rest.contains(x));
                    assert(out[rest.index_of(x)] == x);
                } else {
                    assert(out[rest.len() as int] == x);
                }
            }
            if x == row {
                assert(rest.contains(x));
                assert(out[rest.index_of(x)] == x);
            }
        }
    }
}

pub proof fn lemma_ordered(rows: Seq<BucketRow>)
    requires
        row_ids_distinct(rows),
    ensures
        rows_sorted(ordered(rows)),
        ordered(rows).len() == rows.len(),
        forall|x: BucketRow|
            #![trigger ordered(rows).contains(x)]
            #![trigger rows.contains(x)]
            ordered(rows).contains(x) <==> rows.contains(x),
    decreases rows.len(),
{
    if rows.len() > 0 {
        let init = rows.drop_last();
        assert forall|i: int, j: int|
            #![trigger init[i], init[j]]
            0 <= i < j < init.len() implies init[i].row_id != init[j].row_id by {
            assert(rows[i].row_id != rows[j].row_id);
        }
        lemma_ordered(init);
        let o = ordered(init);
        assert forall|j: int| 0 <= j < o.len() implies (#[trigger] o[j]).row_id
            != rows.last().row_id by {
            assert(o.contains(o[j]));
            let k = init.index_of(o[j]);
            assert(rows[k].row_id != rows[rows.len() - 1].row_id);
        }
        lemma_insert_sorted(o, rows.last());
        assert forall|x: BucketRow|
            #![trigger ordered(rows).contains(x)]
            #![trigger rows.contains(x)]
            ordered(rows).contains(x) <==> rows.contains(x) by {
            if rows.contains(x) {
                let i = rows.index_of(x);
                if i < init.len() {
                    assert(init[i] == x);
                }
            }
            if init.contains(x) {
                assert(rows[init.index_of(x)] == x);
            }
            if x == rows.last() {
                assert(rows[rows.len() - 1] == x);
            }
        }
    }
}

/// Sorted rows are determined by which rows they are.
pub proof fn lemma_sorted_unique(a: Seq<BucketRow>, b: Seq<BucketRow>)
    requires
        rows_sorted(a),
        rows_sorted(b),
        forall|x: BucketRow|
            #![trigger a.contains(x)]
            #![trigger b.contains(x)]
            a.contains(x) <==> b.contains(x),
    ensures
        a == b,
    decreases a.len(),
{
    if a.len() == 0 {
        if b.len() > 0 {
            assert(b.contains(b[0]));
            assert(a.contains(b[0]));
        }
        assert(a =~= b);
    } else {
        assert(a.contains(a[a.len() - 1]));
        assert(b.contains(a[a.len() - 1]));
        assert(b.len() > 0);
        assert(b.contains(b[b.len() - 1]));
        assert(a.contains(b[b.len() - 1]));
        let i = b.index_of(a[a.len() - 1]);
        let j = a.index_of(b[b.len() - 1]);
        if i < b.len() - 1 {
            assert(row_before(b[i], b[b.len() - 1]));
            assert(j < a.len() - 1);
            assert(row_before(a[j], a[a.len() - 1]));
        }
        assert(a.last() == b.last());
        let a1 = a.drop_last();
        let b1 = b.drop_last();
        assert(rows_sorted(a1)) by {
            assert forall|i: int, j: int|
                #![trigger a1[i], a1[j]]
                0 <= i < j < a1.len() implies row_before(a1[i], a1[j]) by {
                assert(row_before(a[i], a[j]));
            }
        }
        assert(rows_sorted(b1)) by {
            assert forall|i: int, j: int|
                #![trigger b1[i], b1[j]]
                0 <= i < j < b1.len() implies row_before(b1[i], b1[j]) by {
                assert(row_before(b[i], b[j]));
            }
        }
        assert forall|x: BucketRow|
            #![trigger a1.contains(x)]
            #![trigger b1.contains(x)]
            a1.contains(x) <==> b1.contains(x) by {
            if a1.contains(x) {
                let k = a1.index_of(x);
                assert(a[k] == x);
                assert(a.contains(x));
                let m = b.index_of(x);
                if m == b.len() - 1 {
                    assert(row_before(a[k], a[a.len() - 1]));
                }
                assert(b1[m] == x);
            }
            if b1.contains(x) {
                let k = b1.index_of(x);
                assert(b[k] == x);
                assert(b.contains(x));
                let m = a.index_of(x);
                if m == a.len() - 1 {
                    assert(row_before(b[k], b[b.len() - 1]));
                }
                assert(a1[m] == x);
            }
        }
        lemma_sorted_unique(a1, b1);
        assert(a =~= a1.push(a.last()));
        assert(b =~= b1.push(b.last()));
    }
}

/// Putting rows in order that are in order already changes nothing.
pub proof fn lemma_ordered_sorted(rows: Seq<BucketRow>)
    requires
        rows_sorted(rows),
    ensures
        ordered(rows) == rows,
    decreases rows.len(),
{
    if rows.len() > 0 {
        let init = rows.drop_last();
        assert(rows_sorted(init)) by {
            assert forall|i: int, j: int|
                #![trigger init[i], init[j]]
                0 <= i < j < init.len() implies row_before(init[i], init[j]) by {
                assert(row_before(rows[i], rows[j]));
            }
        }
        lemma_ordered_sorted(init);
        if init.len() > 0 {
            assert(row_before(rows[rows.len() - 2], rows[rows.len() - 1]));
        }
        assert(rows =~= init.push(rows.last()));
    }
}

/// Taking one row out of rows in order leaves the others in order.
pub proof fn lemma_remove_sorted(rows: Seq<BucketRow>, at: int)
    requires
        rows_sorted(rows),
        0 <= at < rows.len(),
    ensures
        rows_sorted(rows.remove(at)),
{
    let out = rows.remove(at);
    assert forall|i: int, j: int|
        #![trigger out[i], out[j]]
        0 <= i < j < out.len() implies row_before(out[i], out[j]) by {
        let a = if i < at {
            i
        } else {
            i + 1
        };
        let b = if j < at {
            j
        } else {
            j + 1
        };
        assert(row_before(rows[a], rows[b]));
    }
}

} // verus!

//! Tables: all the rows of one entity on one timeline, split into buckets along time.
use crate::bucket::{
    bucket_with, bucket_without, grown_size, lemma_grown_size, with_columns, dropped_row_diff,
    empty_bucket, lemma_bucket_with_valid, lemma_bucket_without_valid, lemma_row_size_bound,
    lemma_rows_size_nonneg, opt_diff, present, row_index, row_size, rows_size, BucketView,
    IndexedBucketInner, BUCKET_OVERHEAD_BYTES,
};
use crate::entries::{contains_row_id, RowIdSet};
use crate::names::{is_one_of, names_contain, temporal, ComponentName, RowId, TimeInt, Timeline, TIME_MIN};
use crate::path::clone_path;
use crate::row::{components_distinct, diff_views, has_component, DataCell, DiffView, StoreDiff, StoreDiffKind};
use crate::sorting::{row_before, BucketRow};
use re_log_types::EntityPath;
use vstd::prelude::*;

verus! {

/// A bucket together with the first time that it is responsible for.
#[derive(Debug)]
pub struct IndexedBucket {
    pub start: TimeInt,
    pub inner: IndexedBucketInner,
}

/// The rows of one entity on one timeline.
#[derive(Debug)]
pub struct IndexedTable {
    pub timeline: Timeline,
    pub entity_path: EntityPath,
    /// Ordered by the time that each starts at. There is always at least one.
    pub buckets: Vec<IndexedBucket>,
    /// Every component that was ever logged here.
    pub all_components: Vec<ComponentName>,
    /// How many rows there are.
    pub buckets_num_rows: u64,
    pub buckets_size_bytes: u64,
    pub store_insert_ids: bool,
}

/// What contracts know of a bucket of a table.
#[verifier::ext_equal]
pub struct TableBucket {
    pub start: i64,
    pub bucket: BucketView,
}

impl View for IndexedBucket {
    type V = TableBucket;

    open spec fn view(&self) -> TableBucket {
        TableBucket { start: self.start.value, bucket: self.inner@ }
    }
}

/// What contracts know of a table.
#[verifier::ext_equal]
pub struct TableView {
    pub timeline: Timeline,
    pub entity_path: EntityPath,
    pub buckets: Seq<TableBucket>,
    pub all_components: Seq<Seq<char>>,
    pub num_rows: int,
    pub store_insert_ids: bool,
}

/// What buckets take up, in bytes.
pub open spec fn buckets_size(buckets: Seq<TableBucket>) -> int
    decreases buckets.len(),
{
    if buckets.len() == 0 {
        0
    } else {
        buckets_size(buckets.drop_last()) + buckets.last().bucket.size()
    }
}

/// How many rows buckets hold.
pub open spec fn buckets_rows(buckets: Seq<TableBucket>) -> int
    decreases buckets.len(),
{
    if buckets.len() == 0 {
        0
    } else {
        buckets_rows(buckets.drop_last()) + buckets.last().bucket.rows.len()
    }
}

/// Whether each bucket holds rows only from the time that it starts at up to where the next one
/// starts.
pub open spec fn rows_in_range(buckets: Seq<TableBucket>) -> bool {
    forall|b: int, i: int|
        #![trigger buckets[b].bucket.rows[i]]
        0 <= b < buckets.len() && 0 <= i < buckets[b].bucket.rows.len() ==> {
            &&& buckets[b].start <= buckets[b].bucket.rows[i].time
            &&& b + 1 < buckets.len() ==> buckets[b].bucket.rows[i].time < buckets[b + 1].start
        }
}

/// Whether no row id occurs in two buckets.
pub open spec fn buckets_disjoint(buckets: Seq<TableBucket>) -> bool {
    forall|a: int, b: int, i: int, j: int|
        #![trigger buckets[a].bucket.rows[i], buckets[b].bucket.rows[j]]
        0 <= a < b < buckets.len() && 0 <= i < buckets[a].bucket.rows.len() && 0 <= j
            < buckets[b].bucket.rows.len() ==> buckets[a].bucket.rows[i].row_id
            != buckets[b].bucket.rows[j].row_id
}

pub open spec fn starts_ordered(buckets: Seq<TableBucket>) -> bool {
    forall|a: int, b: int|
        #![trigger buckets[a], buckets[b]]
        0 <= a < b < buckets.len() ==> buckets[a].start < buckets[b].start
}

/// Whether every column of every bucket belongs to one of the components.
pub open spec fn columns_among(buckets: Seq<TableBucket>, components: Seq<Seq<char>>) -> bool {
    forall|b: int, k: int|
        #![trigger buckets[b].bucket.columns[k]]
        0 <= b < buckets.len() && 0 <= k < buckets[b].bucket.columns.len() ==> components.contains(
            buckets[b].bucket.columns[k],
        )
}

impl TableView {
    /// What the rows of the table take up, in bytes.
    pub open spec fn size(self) -> int {
        buckets_size(self.buckets)
    }

    /// Whether there is a row with this id at this time.
    pub open spec fn has_row(self, row_id: RowId, time: i64) -> bool {
        exists|b: int, i: int|
            0 <= b < self.buckets.len() && 0 <= i < self.buckets[b].bucket.rows.len()
                && (#[trigger] self.buckets[b].bucket.rows[i]).row_id == row_id
                && self.buckets[b].bucket.rows[i].time == time
    }

    /// Whether there is a row with this id.
    pub open spec fn has_row_id(self, row_id: RowId) -> bool {
        exists|b: int, i: int|
            0 <= b < self.buckets.len() && 0 <= i < self.buckets[b].bucket.rows.len()
                && (#[trigger] self.buckets[b].bucket.rows[i]).row_id == row_id
    }

    /// Everything that is true of any table.
    #[verifier::opaque]
    pub open spec fn valid(self) -> bool {
        &&& self.buckets.len() > 0
        &&& self.buckets[0].start == TIME_MIN
        &&& starts_ordered(self.buckets)
        &&& rows_in_range(self.buckets)
        &&& buckets_disjoint(self.buckets)
        &&& forall|b: int|
            0 <= b < self.buckets.len() ==> {
                &&& (#[trigger] self.buckets[b]).bucket.valid()
                &&& self.buckets[b].bucket.store_insert_ids == self.store_insert_ids
                &&& self.buckets.len() > 1 ==> self.buckets[b].bucket.rows.len() > 0
            }
        &&& columns_among(self.buckets, self.all_components)
        &&& self.num_rows == buckets_rows(self.buckets)
    }
}

pub open spec fn bucket_views(buckets: Seq<IndexedBucket>) -> Seq<TableBucket> {
    Seq::new(buckets.len(), |b: int| buckets[b]@)
}

pub open spec fn name_views(names: Seq<ComponentName>) -> Seq<Seq<char>> {
    Seq::new(names.len(), |i: int| names[i]@)
}

impl View for IndexedTable {
    type V = TableView;

    open spec fn view(&self) -> TableView {
        TableView {
            timeline: self.timeline,
            entity_path: self.entity_path,
            buckets: bucket_views(self.buckets@),
            all_components: name_views(self.all_components@),
            num_rows: self.buckets_num_rows as int,
            store_insert_ids: self.store_insert_ids,
        }
    }
}

impl IndexedTable {
    pub open spec fn wf(self) -> bool {
        &&& forall|b: int| 0 <= b < self.buckets@.len() ==> (#[trigger] self.buckets@[b]).inner.wf()
        &&& self@.valid()
        &&& self.buckets_size_bytes == self@.size()
    }
}

/// The table of an entity on a timeline before anything is logged to it.
pub open spec fn empty_table(timeline: Timeline, entity_path: EntityPath, store_insert_ids: bool)
    -> TableView {
    TableView {
        timeline,
        entity_path,
        buckets: seq![TableBucket { start: TIME_MIN, bucket: empty_bucket(store_insert_ids) }],
        all_components: Seq::empty(),
        num_rows: 0,
        store_insert_ids,
    }
}

/// Which bucket is responsible for a time: the last one that does not start after it.
pub open spec fn bucket_of(buckets: Seq<TableBucket>, time: i64) -> int
    decreases buckets.len(),
{
    if buckets.len() <= 1 {
        0
    } else if buckets.last().start <= time {
        buckets.len() - 1
    } else {
        bucket_of(buckets.drop_last(), time)
    }
}

/// Buckets of which the first one is responsible for everything before the second.
pub open spec fn rekeyed(buckets: Seq<TableBucket>) -> Seq<TableBucket> {
    buckets.update(0, TableBucket { start: TIME_MIN, bucket: buckets[0].bucket })
}

/// What removing something from a table leaves, what it reports, and how many bytes it frees.
#[verifier::ext_equal]
pub struct TableDrop {
    pub table: TableView,
    pub diff: Option<DiffView>,
    pub num_bytes: int,
}

/// What dropping one row of a table comes to.
///
/// A bucket that is left without rows goes away as a whole, unless it is the only one.
pub open spec fn drop_row_spec(table: TableView, row_id: RowId, time: TimeInt) -> TableDrop {
    let b = bucket_of(table.buckets, time.value);
    let bucket = table.buckets[b].bucket;
    match row_index(bucket.rows, row_id, time.value) {
        None => TableDrop { table, diff: None, num_bytes: 0 },
        Some(i) => {
            let row = bucket.rows[i];
            let left = bucket_without(bucket, i);
            let diff = dropped_row_diff(row, table.timeline, time, table.entity_path);
            if table.buckets.len() > 1 && left.rows.len() == 0 {
                TableDrop {
                    table: TableView {
                        buckets: rekeyed(table.buckets.remove(b)),
                        num_rows: table.num_rows - 1,
                        ..table
                    },
                    diff,
                    num_bytes: bucket.size(),
                }
            } else {
                TableDrop {
                    table: TableView {
                        buckets: table.buckets.update(
                            b,
                            TableBucket { start: table.buckets[b].start, bucket: left },
                        ),
                        num_rows: table.num_rows - 1,
                        ..table
                    },
                    diff,
                    num_bytes: row_size(row),
                }
            }
        },
    }
}

// --- Facts about sequences of buckets.

pub proof fn lemma_bucket_of(buckets: Seq<TableBucket>, time: i64)
    requires
        buckets.len() > 0,
        buckets[0].start == TIME_MIN,
        starts_ordered(buckets),
        time >= TIME_MIN,
    ensures
        0 <= bucket_of(buckets, time) < buckets.len(),
        buckets[bucket_of(buckets, time)].start <= time,
        forall|b: int|
            bucket_of(buckets, time) < b < buckets.len() ==> (#[trigger] buckets[b]).start > time,
    decreases buckets.len(),
{
    if buckets.len() > 1 && buckets.last().start > time {
        let init = buckets.drop_last();
        assert(starts_ordered(init)) by {
            assert forall|a: int, b: int|
                #![trigger init[a], init[b]]
                0 <= a < b < init.len() implies init[a].start < init[b].start by {
                assert(buckets[a].start < buckets[b].start);
            }
        }
        assert(init[0] == buckets[0]);
        lemma_bucket_of(init, time);
        let k = bucket_of(init, time);
        assert(init[k] == buckets[k]);
        assert forall|b: int| k < b < buckets.len() implies (#[trigger] buckets[b]).start
            > time by {
            if b < init.len() {
                assert(init[b].start > time);
            }
        }
    }
}

pub proof fn lemma_buckets_update(buckets: Seq<TableBucket>, b: int, new: TableBucket)
    requires
        0 <= b < buckets.len(),
    ensures
        buckets_size(buckets.update(b, new)) == buckets_size(buckets) - buckets[b].bucket.size()
            + new.bucket.size(),
        buckets_rows(buckets.update(b, new)) == buckets_rows(buckets) - buckets[b].bucket.rows.len()
            + new.bucket.rows.len(),
    decreases buckets.len(),
{
    let init = buckets.drop_last();
    if b < buckets.len() - 1 {
        lemma_buckets_update(init, b, new);
        assert(buckets.update(b, new).drop_last() =~= init.update(b, new));
        assert(buckets.update(b, new).last() == buckets.last());
    } else {
        assert(buckets.update(b, new).drop_last() =~= init);
    }
}

pub proof fn lemma_buckets_remove(buckets: Seq<TableBucket>, b: int)
    requires
        0 <= b < buckets.len(),
    ensures
        buckets_size(buckets.remove(b)) == buckets_size(buckets) - buckets[b].bucket.size(),
        buckets_rows(buckets.remove(b)) == buckets_rows(buckets) - buckets[b].bucket.rows.len(),
    decreases buckets.len(),
{
    let init = buckets.drop_last();
    if b < buckets.len() - 1 {
        lemma_buckets_remove(init, b);
        assert(buckets.remove(b).drop_last() =~= init.remove(b));
        assert(buckets.remove(b).last() == buckets.last());
    } else {
        assert(buckets.remove(b) =~= init);
    }
}

pub proof fn lemma_bucket_size_positive(bucket: BucketView)
    ensures
        bucket.size() >= BUCKET_OVERHEAD_BYTES,
{
    lemma_rows_size_nonneg(bucket.rows);
}

pub proof fn lemma_buckets_nonneg(buckets: Seq<TableBucket>)
    ensures
        buckets_size(buckets) >= 0,
        buckets_rows(buckets) >= 0,
    decreases buckets.len(),
{
    if buckets.len() > 0 {
        lemma_buckets_nonneg(buckets.drop_last());
        lemma_bucket_size_positive(buckets.last().bucket);
    }
}

/// One bucket takes up no more than all of them.
pub proof fn lemma_bucket_bound(buckets: Seq<TableBucket>, b: int)
    requires
        0 <= b < buckets.len(),
    ensures
        0 < buckets[b].bucket.size() <= buckets_size(buckets),
        buckets[b].bucket.rows.len() <= buckets_rows(buckets),
{
    lemma_buckets_remove(buckets, b);
    lemma_buckets_nonneg(buckets.remove(b));
    lemma_bucket_size_positive(buckets[b].bucket);
}

/// What is true of a valid table as a whole.
pub proof fn lemma_table_valid(table: TableView)
    requires
        table.valid(),
    ensures
        table.buckets.len() > 0,
        table.num_rows == buckets_rows(table.buckets) >= 0,
{
    reveal(TableView::valid);
    lemma_buckets_nonneg(table.buckets);
}

/// What is true of the bucket of a valid table that is responsible for a time.
pub proof fn lemma_table_bucket_of(table: TableView, time: i64)
    requires
        table.valid(),
        time >= TIME_MIN,
    ensures
        ({
            let b = bucket_of(table.buckets, time);
            &&& 0 <= b < table.buckets.len()
            &&& table.buckets[b].start <= time
            &&& table.buckets[b].bucket.valid()
            &&& table.buckets.len() > 1 ==> table.buckets[b].bucket.rows.len() > 0
        }),
{
    reveal(TableView::valid);
    lemma_bucket_of(table.buckets, time);
}

/// A table stays valid when one of its buckets gives up a row and keeps others, or has no other
/// buckets beside it.
proof fn lemma_table_shrunk_valid(table: TableView, b: int, i: int)
    requires
        table.valid(),
        0 <= b < table.buckets.len(),
        0 <= i < table.buckets[b].bucket.rows.len(),
        table.buckets.len() == 1 || table.buckets[b].bucket.rows.len() > 1,
    ensures
        ({
            let left = bucket_without(table.buckets[b].bucket, i);
            let new = TableBucket { start: table.buckets[b].start, bucket: left };
            (TableView {
                buckets: table.buckets.update(b, new),
                num_rows: table.num_rows - 1,
                ..table
            }).valid()
        }),
{
    reveal(TableView::valid);
    let bucket = table.buckets[b].bucket;
    let left = bucket_without(bucket, i);
    let new = TableBucket { start: table.buckets[b].start, bucket: left };
    let out = table.buckets.update(b, new);
    lemma_bucket_without_valid(bucket, i);
    lemma_buckets_update(table.buckets, b, new);
    assert forall|a: int, c: int|
        #![trigger out[a], out[c]]
        0 <= a < c < out.len() implies out[a].start < out[c].start by {
        assert(table.buckets[a].start < table.buckets[c].start);
    }
    assert forall|a: int, j: int|
        #![trigger out[a].bucket.rows[j]]
        0 <= a < out.len() && 0 <= j < out[a].bucket.rows.len() implies {
        &&& out[a].start <= out[a].bucket.rows[j].time
        &&& a + 1 < out.len() ==> out[a].bucket.rows[j].time < out[a + 1].start
    } by {
        let k = if a == b && j >= i {
            j + 1
        } else {
            j
        };
        assert(out[a].bucket.rows[j] == table.buckets[a].bucket.rows[k]);
    }
    assert forall|a: int, c: int, j: int, k: int|
        #![trigger out[a].bucket.rows[j], out[c].bucket.rows[k]]
        0 <= a < c < out.len() && 0 <= j < out[a].bucket.rows.len() && 0 <= k
            < out[c].bucket.rows.len() implies out[a].bucket.rows[j].row_id
        != out[c].bucket.rows[k].row_id by {
        let j2 = if a == b && j >= i {
            j + 1
        } else {
            j
        };
        let k2 = if c == b && k >= i {
            k + 1
        } else {
            k
        };
        assert(out[a].bucket.rows[j] == table.buckets[a].bucket.rows[j2]);
        assert(out[c].bucket.rows[k] == table.buckets[c].bucket.rows[k2]);
    }
    assert forall|a: int, k: int|
        #![trigger out[a].bucket.columns[k]]
        0 <= a < out.len() && 0 <= k < out[a].bucket.columns.len() implies table.all_components.contains(
        out[a].bucket.columns[k],
    ) by {
        assert(out[a].bucket.columns[k] == table.buckets[a].bucket.columns[k]);
    }
    assert forall|a: int| 0 <= a < out.len() implies {
        &&& (#[trigger] out[a]).bucket.valid()
        &&& out[a].bucket.store_insert_ids == table.store_insert_ids
        &&& out.len() > 1 ==> out[a].bucket.rows.len() > 0
    } by {
        assert(table.buckets[a].bucket.valid());
    }
}

/// A table stays valid when one of several buckets leaves together with its only row.
proof fn lemma_table_bucket_removed_valid(table: TableView, b: int)
    requires
        table.valid(),
        0 <= b < table.buckets.len(),
        table.buckets.len() > 1,
        table.buckets[b].bucket.rows.len() == 1,
    ensures
        (TableView {
            buckets: rekeyed(table.buckets.remove(b)),
            num_rows: table.num_rows - 1,
            ..table
        }).valid(),
{
    reveal(TableView::valid);
    let removed = table.buckets.remove(b);
    let out = rekeyed(removed);
    lemma_buckets_remove(table.buckets, b);
    lemma_buckets_update(removed, 0, out[0]);
    lemma_rekeyed_valid(table, removed, |a: int| if a < b {
        a
    } else {
        a + 1
    });
}

/// Some of the buckets of a table, in order, with the first one starting at the beginning of time,
/// are again in order and disjoint.
proof fn lemma_rekeyed_valid(table: TableView, some: Seq<TableBucket>, from: spec_fn(int) -> int)
    requires
        table.valid(),
        some.len() > 0,
        some.len() <= table.buckets.len(),
        forall|a: int|
            0 <= a < some.len() ==> 0 <= #[trigger] from(a) < table.buckets.len() && some[a]
                == table.buckets[from(a)],
        forall|a: int, c: int|
            #![trigger from(a), from(c)]
            0 <= a < c < some.len() ==> from(a) < from(c),
    ensures
        ({
            let out = rekeyed(some);
            &&& out[0].start == TIME_MIN
            &&& starts_ordered(out)
            &&& rows_in_range(out)
            &&& buckets_disjoint(out)
            &&& columns_among(out, table.all_components)
            &&& forall|a: int|
                0 <= a < out.len() ==> {
                    &&& (#[trigger] out[a]).bucket.valid()
                    &&& out[a].bucket.store_insert_ids == table.store_insert_ids
                    &&& out.len() > 1 ==> out[a].bucket.rows.len() > 0
                }
        }),
{
    reveal(TableView::valid);
    let out = rekeyed(some);
    let all = table.buckets;
    assert forall|a: int| 0 <= a < out.len() implies #[trigger] out[a].bucket == all[from(
        a,
    )].bucket by {
        assert(some[a] == all[from(a)]);
    }
    assert forall|a: int, c: int|
        #![trigger out[a], out[c]]
        0 <= a < c < out.len() implies out[a].start < out[c].start by {
        assert(from(a) < from(c));
        assert(all[from(a)].start < all[from(c)].start);
        assert(all[0].start == TIME_MIN);
        if from(a) > 0 {
            assert(all[0].start < all[from(a)].start);
        }
    }
    assert forall|a: int, j: int|
        #![trigger out[a].bucket.rows[j]]
        0 <= a < out.len() && 0 <= j < out[a].bucket.rows.len() implies {
        &&& out[a].start <= out[a].bucket.rows[j].time
        &&& a + 1 < out.len() ==> out[a].bucket.rows[j].time < out[a + 1].start
    } by {
        let x = from(a);
        assert(out[a].bucket.rows[j] == all[x].bucket.rows[j]);
        assert(all[x].bucket.valid());
        assert(all[x].start <= all[x].bucket.rows[j].time);
        if a + 1 < out.len() {
            let y = from(a + 1);
            assert(from(a) < from(a + 1));
            assert(some[a + 1] == all[y]);
            assert(all[x].bucket.rows[j].time < all[x + 1].start);
            if x + 1 < y {
                assert(all[x + 1].start < all[y].start);
            }
        }
    }
    assert forall|a: int, c: int, j: int, k: int|
        #![trigger out[a].bucket.rows[j], out[c].bucket.rows[k]]
        0 <= a < c < out.len() && 0 <= j < out[a].bucket.rows.len() && 0 <= k
            < out[c].bucket.rows.len() implies out[a].bucket.rows[j].row_id
        != out[c].bucket.rows[k].row_id by {
        assert(from(a) < from(c));
        assert(all[from(a)].bucket.rows[j].row_id != all[from(c)].bucket.rows[k].row_id);
    }
    assert forall|a: int, k: int|
        #![trigger out[a].bucket.columns[k]]
        0 <= a < out.len() && 0 <= k < out[a].bucket.columns.len() implies table.all_components.contains(
        out[a].bucket.columns[k],
    ) by {
        assert(out[a].bucket.columns[k] == all[from(a)].bucket.columns[k]);
    }
    assert forall|a: int| 0 <= a < out.len() implies {
        &&& (#[trigger] out[a]).bucket.valid()
        &&& out[a].bucket.store_insert_ids == table.store_insert_ids
        &&& out.len() > 1 ==> out[a].bucket.rows.len() > 0
    } by {
        assert(all[from(a)].bucket.valid());
    }
}

// --- Dropping a row.

/// A table that gave up a row is valid, and smaller by the bytes that were freed.
pub proof fn lemma_drop_row_valid(table: TableView, row_id: RowId, time: TimeInt)
    requires
        table.valid(),
        time.value >= TIME_MIN,
    ensures
        drop_row_spec(table, row_id, time).table.valid(),
        drop_row_spec(table, row_id, time).table.size() == table.size() - drop_row_spec(
            table,
            row_id,
            time,
        ).num_bytes,
        0 <= drop_row_spec(table, row_id, time).num_bytes <= table.size(),
{
    reveal(TableView::valid);
    let b = bucket_of(table.buckets, time.value);
    lemma_bucket_of(table.buckets, time.value);
    let bucket = table.buckets[b].bucket;
    assert(bucket.valid());
    lemma_bucket_bound(table.buckets, b);
    match row_index(bucket.rows, row_id, time.value) {
        None => {},
        Some(i) => {
            lemma_bucket_without_valid(bucket, i);
            lemma_row_size_bound(bucket.rows, i);
            let left = bucket_without(bucket, i);
            if table.buckets.len() > 1 && left.rows.len() == 0 {
                lemma_table_bucket_removed_valid(table, b);
                lemma_buckets_remove(table.buckets, b);
                let removed = table.buckets.remove(b);
                lemma_buckets_update(removed, 0, rekeyed(removed)[0]);
            } else {
                lemma_table_shrunk_valid(table, b, i);
                lemma_buckets_update(
                    table.buckets,
                    b,
                    TableBucket { start: table.buckets[b].start, bucket: left },
                );
            }
        },
    }
}

impl IndexedTable {
    pub fn new(timeline: Timeline, entity_path: EntityPath, store_insert_ids: bool) -> (r:
        IndexedTable)
        ensures
            r.wf(),
            r@ == empty_table(timeline, entity_path, store_insert_ids),
    {
        let inner = IndexedBucketInner::new(store_insert_ids);
        let mut buckets: Vec<IndexedBucket> = Vec::new();
        buckets.push(IndexedBucket { start: TimeInt { value: TIME_MIN }, inner });
        let r = IndexedTable {
            timeline,
            entity_path,
            buckets,
            all_components: Vec::new(),
            buckets_num_rows: 0,
            buckets_size_bytes: BUCKET_OVERHEAD_BYTES,
            store_insert_ids,
        };
        proof {
            reveal(TableView::valid);
            let expect = empty_table(timeline, entity_path, store_insert_ids);
            assert(r@.buckets =~= expect.buckets);
            assert(r@.all_components =~= expect.all_components);
            assert(r@ =~= expect);
            assert(r@.buckets.drop_last() =~= Seq::<TableBucket>::empty());
            assert(r@.buckets[0].bucket.rows.len() == 0);
            reveal_with_fuel(buckets_size, 2);
            reveal_with_fuel(buckets_rows, 2);
            reveal_with_fuel(rows_size, 1);
        }
        r
    }

    /// Which bucket is responsible for a time.
    pub fn find_bucket(&self, time: TimeInt) -> (r: usize)
        requires
            self@.valid(),
            time.value >= TIME_MIN,
        ensures
            r < self.buckets@.len(),
            r == bucket_of(self@.buckets, time.value),
    {
        proof {
            lemma_table_valid(self@);
        }
        let mut b: usize = self.buckets.len() - 1;
        proof {
            assert(self@.buckets.take(b + 1) =~= self@.buckets);
        }
        while b > 0 && self.buckets[b].start.value > time.value
            invariant
                b < self.buckets@.len(),
                bucket_of(self@.buckets, time.value) == bucket_of(
                    self@.buckets.take(b + 1),
                    time.value,
                ),
            decreases b,
        {
            proof {
                let prefix = self@.buckets.take(b + 1);
                assert(prefix.last() == self@.buckets[b as int]);
                assert(prefix.drop_last() =~= self@.buckets.take(b as int));
            }
            b -= 1;
        }
        proof {
            let prefix = self@.buckets.take(b + 1);
            assert(prefix.last() == self@.buckets[b as int]);
        }
        b
    }

    /// Makes sure that there is a bucket, and that the first one starts at the beginning of time.
    fn uphold_indexing_invariants(&mut self)
        requires
            old(self).buckets@.len() == 0 ==> old(self).buckets_size_bytes + BUCKET_OVERHEAD_BYTES
                <= u64::MAX,
        ensures
            final(self).timeline == old(self).timeline,
            final(self).entity_path == old(self).entity_path,
            final(self).all_components == old(self).all_components,
            final(self).buckets_num_rows == old(self).buckets_num_rows,
            final(self).store_insert_ids == old(self).store_insert_ids,
            final(self).buckets_size_bytes == old(self).buckets_size_bytes + if old(self).buckets@.len() == 0 {
                BUCKET_OVERHEAD_BYTES as int
            } else {
                0
            },
            bucket_views(final(self).buckets@) == if old(self).buckets@.len() == 0 {
                seq![
                    TableBucket {
                        start: TIME_MIN,
                        bucket: empty_bucket(old(self).store_insert_ids),
                    },
                ]
            } else {
                rekeyed(bucket_views(old(self).buckets@))
            },
            (forall|b: int|
                0 <= b < old(self).buckets@.len() ==> (#[trigger] old(self).buckets@[b]).inner.wf()) ==> (forall|b: int|
                0 <= b < final(self).buckets@.len() ==> (#[trigger] final(self).buckets@[b]).inner.wf()),
    {
        if self.buckets.len() == 0 {
            let inner = IndexedBucketInner::new(self.store_insert_ids);
            self.buckets.push(IndexedBucket { start: TimeInt { value: TIME_MIN }, inner });
            self.buckets_size_bytes = self.buckets_size_bytes + BUCKET_OVERHEAD_BYTES;
        } else {
            self.buckets[0].start = TimeInt { value: TIME_MIN };
        }
        assert(bucket_views(self.buckets@) =~= if old(self).buckets@.len() == 0 {
            seq![TableBucket { start: TIME_MIN, bucket: empty_bucket(old(self).store_insert_ids) }]
        } else {
            rekeyed(bucket_views(old(self).buckets@))
        });
    }

    /// Tries to drop the row with this id, which is expected to be found at the given time.
    ///
    /// Returns what was dropped and how many bytes that freed: nothing and zero if the row is not
    /// there.
    pub fn try_drop_row(&mut self, row_id: RowId, time: TimeInt) -> (r: (Option<StoreDiff>, u64))
        requires
            old(self).wf(),
            time.value >= TIME_MIN,
        ensures
            final(self).wf(),
            ({
                let dropped = drop_row_spec(old(self)@, row_id, time);
                &&& final(self)@ == dropped.table
                &&& opt_diff(r.0) == dropped.diff
                &&& r.1 == dropped.num_bytes
            }),
    {
        let ghost table = self@;
        let entity_path = clone_path(&self.entity_path);
        let timeline = self.timeline;
        let has_more_than_one_bucket = self.buckets.len() > 1;
        let b: usize = self.find_bucket(time);
        let ghost bucket = table.buckets[b as int].bucket;
        proof {
            lemma_table_bucket_of(table, time.value);
            lemma_bucket_bound(table.buckets, b as int);
            lemma_drop_row_valid(table, row_id, time);
            lemma_table_valid(drop_row_spec(table, row_id, time).table);
            assert(self.buckets@[b as int].inner.wf());
        }
        let bucket_num_bytes: u64 = self.buckets[b].inner.total_size_bytes();
        let (diff, row_num_bytes) = self.buckets[b].inner.try_drop_row(
            row_id,
            timeline,
            &entity_path,
            time,
        );
        let ghost goal = drop_row_spec(table, row_id, time);
        let ghost shrunk = bucket_views(self.buckets@);
        proof {
            lemma_buckets_nonneg(goal.table.buckets);
            assert(shrunk =~= table.buckets.update(b as int, shrunk[b as int]));
            match row_index(bucket.rows, row_id, time.value) {
                Some(i) => {
                    lemma_row_size_bound(bucket.rows, i);
                },
                None => {
                    assert(shrunk =~= table.buckets);
                },
            }
        }
        let mut dropped_num_bytes: u64 = row_num_bytes;
        if has_more_than_one_bucket && self.buckets[b].inner.num_rows() == 0 {
            // The bucket itself goes, not just what it held.
            dropped_num_bytes = bucket_num_bytes;
            self.buckets.remove(b);
            proof {
                assert(bucket_views(self.buckets@) =~= table.buckets.remove(b as int));
            }
            self.uphold_indexing_invariants();
        }
        assert(bucket_views(self.buckets@) == goal.table.buckets);
        assert(dropped_num_bytes == goal.num_bytes);
        self.buckets_size_bytes = self.buckets_size_bytes - dropped_num_bytes;
        if dropped_num_bytes > 0 {
            self.buckets_num_rows = self.buckets_num_rows - 1;
        }
        assert(self@ =~= goal.table);
        (diff, dropped_num_bytes)
    }
}

// --- Dropping whole buckets.

/// Whether a bucket holds rows, none of them protected or with an id greater than `max`.
pub open spec fn droppable(bucket: BucketView, max: RowId, protected: Set<u128>) -> bool {
    bucket.rows.len() > 0 && forall|i: int|
        0 <= i < bucket.rows.len() ==> (#[trigger] bucket.rows[i]).row_id.bits <= max.bits
            && !protected.contains(bucket.rows[i].row_id.bits)
}

/// The positions of the buckets that are not droppable.
pub open spec fn kept_indices(
    buckets: Seq<TableBucket>,
    max: RowId,
    protected: Set<u128>,
) -> Seq<int>
    decreases buckets.len(),
{
    if buckets.len() == 0 {
        Seq::empty()
    } else {
        let rest = kept_indices(buckets.drop_last(), max, protected);
        if droppable(buckets.last().bucket, max, protected) {
            rest
        } else {
            rest.push(buckets.len() - 1)
        }
    }
}

/// The buckets that are not droppable.
pub open spec fn kept_buckets(
    buckets: Seq<TableBucket>,
    max: RowId,
    protected: Set<u128>,
) -> Seq<TableBucket>
    decreases buckets.len(),
{
    if buckets.len() == 0 {
        Seq::empty()
    } else {
        let rest = kept_buckets(buckets.drop_last(), max, protected);
        if droppable(buckets.last().bucket, max, protected) {
            rest
        } else {
            rest.push(buckets.last())
        }
    }
}

/// The buckets that are droppable.
pub open spec fn droppable_buckets(
    buckets: Seq<TableBucket>,
    max: RowId,
    protected: Set<u128>,
) -> Seq<TableBucket>
    decreases buckets.len(),
{
    if buckets.len() == 0 {
        Seq::empty()
    } else {
        let rest = droppable_buckets(buckets.drop_last(), max, protected);
        if droppable(buckets.last().bucket, max, protected) {
            rest.push(buckets.last())
        } else {
            rest
        }
    }
}

/// What is reported of a row that leaves together with its bucket or its table.
pub open spec fn full_row_diff(row: BucketRow, timeline: Timeline, entity_path: EntityPath)
    -> DiffView {
    DiffView {
        kind: StoreDiffKind::Deletion,
        row_id: row.row_id,
        times: seq![(timeline, temporal(row.time))],
        entity_path,
        cells: present(row.cells),
    }
}

/// What is reported of all the rows of some buckets.
pub open spec fn bucket_diffs(
    buckets: Seq<TableBucket>,
    timeline: Timeline,
    entity_path: EntityPath,
) -> Seq<DiffView>
    decreases buckets.len(),
{
    if buckets.len() == 0 {
        Seq::empty()
    } else {
        bucket_diffs(buckets.drop_last(), timeline, entity_path) + rows_diffs(
            buckets.last().bucket.rows,
            timeline,
            entity_path,
        )
    }
}

pub open spec fn rows_diffs(rows: Seq<BucketRow>, timeline: Timeline, entity_path: EntityPath)
    -> Seq<DiffView> {
    Seq::new(rows.len(), |i: int| full_row_diff(rows[i], timeline, entity_path))
}

/// What removing buckets from a table leaves, what it reports, and how many bytes it frees.
#[verifier::ext_equal]
pub struct TableSweep {
    pub table: TableView,
    pub diffs: Seq<DiffView>,
    pub num_bytes: int,
}

/// What dropping all buckets without any protected row and any id greater than `max` comes to.
pub open spec fn drop_buckets_spec(
    table: TableView,
    max: RowId,
    protected: Set<u128>,
) -> TableSweep {
    let kept = kept_buckets(table.buckets, max, protected);
    let dropped = droppable_buckets(table.buckets, max, protected);
    TableSweep {
        table: TableView {
            buckets: if kept.len() == 0 {
                seq![
                    TableBucket {
                        start: TIME_MIN,
                        bucket: empty_bucket(table.store_insert_ids),
                    },
                ]
            } else {
                rekeyed(kept)
            },
            num_rows: table.num_rows - buckets_rows(dropped),
            ..table
        },
        diffs: bucket_diffs(dropped, table.timeline, table.entity_path),
        num_bytes: buckets_size(dropped),
    }
}

pub proof fn lemma_kept(buckets: Seq<TableBucket>, max: RowId, protected: Set<u128>)
    ensures
        kept_buckets(buckets, max, protected).len() == kept_indices(buckets, max, protected).len(),
        kept_indices(buckets, max, protected).len() <= buckets.len(),
        forall|a: int|
            0 <= a < kept_indices(buckets, max, protected).len() ==> 0 <= #[trigger] kept_indices(
                buckets,
                max,
                protected,
            )[a] < buckets.len() && kept_buckets(buckets, max, protected)[a] == buckets[kept_indices(
                buckets,
                max,
                protected,
            )[a]],
        forall|a: int, c: int|
            #![trigger kept_indices(buckets, max, protected)[a], kept_indices(buckets, max, protected)[c]]
            0 <= a < c < kept_indices(buckets, max, protected).len() ==> kept_indices(buckets, max, protected)[a]
                < kept_indices(buckets, max, protected)[c],
        buckets_size(kept_buckets(buckets, max, protected)) + buckets_size(droppable_buckets(buckets, max, protected))
            == buckets_size(buckets),
        buckets_rows(kept_buckets(buckets, max, protected)) + buckets_rows(droppable_buckets(buckets, max, protected))
            == buckets_rows(buckets),
    decreases buckets.len(),
{
    if buckets.len() > 0 {
        let init = buckets.drop_last();
        lemma_kept(init, max, protected);
        if droppable(buckets.last().bucket, max, protected) {
            let rest = droppable_buckets(init, max, protected);
            assert(rest.push(buckets.last()).drop_last() =~= rest);
        } else {
            let rest = kept_buckets(init, max, protected);
            assert(rest.push(buckets.last()).drop_last() =~= rest);
        }
    }
}

/// A table that gave up buckets is valid, and its size is what is left.
pub proof fn lemma_drop_buckets_valid(table: TableView, max: RowId, protected: Set<u128>)
    requires
        table.valid(),
    ensures
        drop_buckets_spec(table, max, protected).table.valid(),
        0 <= drop_buckets_spec(table, max, protected).num_bytes <= table.size(),
        0 <= buckets_rows(droppable_buckets(table.buckets, max, protected)) <= table.num_rows,
        drop_buckets_spec(table, max, protected).table.size() == table.size() - drop_buckets_spec(
            table,
            max,
            protected,
        ).num_bytes + if kept_buckets(table.buckets, max, protected).len() == 0 {
            BUCKET_OVERHEAD_BYTES as int
        } else {
            0
        },
{
    reveal(TableView::valid);
    let out = drop_buckets_spec(table, max, protected).table;
    let kept = kept_buckets(table.buckets, max, protected);
    let dropped = droppable_buckets(table.buckets, max, protected);
    let indices = kept_indices(table.buckets, max, protected);
    lemma_kept(table.buckets, max, protected);
    lemma_buckets_nonneg(kept);
    lemma_buckets_nonneg(dropped);
    if kept.len() == 0 {
        assert(out.buckets.drop_last() =~= Seq::<TableBucket>::empty());
        reveal_with_fuel(buckets_size, 2);
        reveal_with_fuel(buckets_rows, 2);
    } else {
        let from = |a: int| indices[a];
        assert forall|a: int, c: int|
            #![trigger from(a), from(c)]
            0 <= a < c < kept.len() implies from(a) < from(c) by {
            assert(indices[a] < indices[c]);
        }
        lemma_rekeyed_valid(table, kept, from);
        lemma_buckets_update(kept, 0, rekeyed(kept)[0]);
    }
}

impl IndexedBucketInner {
    /// The present cells of the row at a position.
    pub fn cells_at(&self, index: usize) -> (r: Vec<DataCell>)
        requires
            self.aligned(),
            index < self.col_row_id@.len(),
        ensures
            r@ == present(self.stored_rows()[index as int].cells),
    {
        let ghost slots = self.stored_rows()[index as int].cells;
        let mut out: Vec<DataCell> = Vec::new();
        let mut k: usize = 0;
        while k < self.columns.len()
            invariant
                k <= self.columns@.len(),
                self.aligned(),
                index < self.col_row_id@.len(),
                slots == self.stored_rows()[index as int].cells,
                out@ == present(slots.take(k as int)),
            decreases self.columns@.len() - k,
        {
            assert(slots.take(k + 1).drop_last() =~= slots.take(k as int));
            assert(slots.take(k + 1).last() == slots[k as int]);
            assert(self.columns@[k as int].cells@.len() == self.col_row_id@.len());
            if let Some(cell) = &self.columns[k].cells[index] {
                out.push(cell.clone());
            }
            k += 1;
        }
        assert(slots.take(k as int) =~= slots);
        out
    }

    /// What is to be reported of the rows, in order, if they are to go.
    pub fn row_diffs(&self, timeline: Timeline, entity_path: &EntityPath) -> (r: Vec<StoreDiff>)
        requires
            self.aligned(),
        ensures
            diff_views(r@) == rows_diffs(self.stored_rows(), timeline, *entity_path),
    {
        let mut out: Vec<StoreDiff> = Vec::new();
        let mut i: usize = 0;
        while i < self.col_row_id.len()
            invariant
                i <= self.col_row_id@.len(),
                out@.len() == i,
                self.aligned(),
                diff_views(out@) == rows_diffs(
                    self.stored_rows().take(i as int),
                    timeline,
                    *entity_path,
                ),
            decreases self.col_row_id@.len() - i,
        {
            let mut diff = StoreDiff::deletion(self.col_row_id[i], clone_path(entity_path));
            diff.at_timestamp(timeline, TimeInt::new_temporal(self.col_time[i]));
            diff.cells = self.cells_at(i);
            proof {
                assert(diff@.times =~= seq![(timeline, temporal(self.col_time@[i as int]))]);
            }
            let ghost before = out@;
            out.push(diff);
            i += 1;
            proof {
                assert(diff_views(out@) =~= rows_diffs(
                    self.stored_rows().take(i as int),
                    timeline,
                    *entity_path,
                )) by {
                    let rows = self.stored_rows();
                    assert forall|j: int| 0 <= j < i implies diff_views(out@)[j]
                        == #[trigger] rows_diffs(rows.take(i as int), timeline, *entity_path)[j] by {
                        if j < i - 1 {
                            assert(diff_views(before)[j] == rows_diffs(
                                rows.take(i - 1),
                                timeline,
                                *entity_path,
                            )[j]);
                        }
                    }
                }
            }
        }
        assert(self.stored_rows().take(i as int) =~= self.stored_rows());
        out
    }
}

impl IndexedBucketInner {
    /// What is to be reported of the rows, in the order of time and row id, if they are to go.
    pub fn sorted_row_diffs(&mut self, timeline: Timeline, entity_path: &EntityPath) -> (r: Vec<
        StoreDiff,
    >)
        requires
            old(self).wf(),
        ensures
            final(self).wf(),
            final(self)@ == old(self)@,
            diff_views(r@) == rows_diffs(old(self)@.rows, timeline, *entity_path),
    {
        self.sort();
        proof {
            reveal(IndexedBucketInner::wf);
        }
        self.row_diffs(timeline, entity_path)
    }

    /// Whether there are rows in the bucket, none of them protected or with an id greater than
    /// `max`.
    pub fn is_outdated(&self, max: RowId, protected: &RowIdSet) -> (r: bool)
        requires
            self.wf(),
        ensures
            r == droppable(self@, max, protected@),
    {
        proof {
            reveal(IndexedBucketInner::wf);
            crate::sorting::lemma_ordered(self.stored_rows());
            if self.col_time@.len() > 0 {
                let i = choose|i: int|
                    0 <= i < self@.rows.len() && (#[trigger] self@.rows[i]).row_id
                        == self.max_row_id;
                assert(self@.rows[i].row_id == self.max_row_id);
            }
        }
        if self.col_time.len() == 0 || self.max_row_id.bits > max.bits {
            return false;
        }
        let mut i: usize = 0;
        while i < self.col_row_id.len()
            invariant
                i <= self.col_row_id@.len(),
                forall|j: int|
                    0 <= j < i ==> !protected@.contains((#[trigger] self.col_row_id@[j]).bits),
                self.wf(),
            decreases self.col_row_id@.len() - i,
        {
            if contains_row_id(protected, self.col_row_id[i]) {
                proof {
                    reveal(IndexedBucketInner::wf);
                    crate::sorting::lemma_ordered(self.stored_rows());
                    let row = self.stored_rows()[i as int];
                    assert(self.stored_rows().contains(row));
                    assert(self@.rows.contains(row));
                    let k = choose|k: int| 0 <= k < self@.rows.len() && self@.rows[k] == row;
                    assert(protected@.contains(self@.rows[k].row_id.bits));
                }
                return false;
            }
            i += 1;
        }
        proof {
            assert forall|k: int| 0 <= k < self@.rows.len() implies !protected@.contains(
                (#[trigger] self@.rows[k]).row_id.bits,
            ) by {
                reveal(IndexedBucketInner::wf);
                crate::sorting::lemma_ordered(self.stored_rows());
                let row = self@.rows[k];
                assert(self@.rows.contains(row));
                assert(self.stored_rows().contains(row));
                let j = choose|j: int|
                    0 <= j < self.stored_rows().len() && self.stored_rows()[j] == row;
                assert(self.col_row_id@[j] == row.row_id);
            }
        }
        true
    }
}

pub proof fn lemma_diff_views_append(a: Seq<StoreDiff>, b: Seq<StoreDiff>)
    ensures
        diff_views(a + b) == diff_views(a) + diff_views(b),
{
    assert(diff_views(a + b) =~= diff_views(a) + diff_views(b));
}

proof fn lemma_kept_step(
    kept: Seq<TableBucket>,
    all: Seq<TableBucket>,
    i: int,
    max: RowId,
    protected: Set<u128>,
)
    requires
        0 <= i < all.len(),
        kept == kept_buckets(all.take(i), max, protected),
    ensures
        droppable(all[i].bucket, max, protected) ==> kept_buckets(all.take(i + 1), max, protected) == kept
            && droppable_buckets(all.take(i + 1), max, protected) == droppable_buckets(all.take(i), max, protected).push(
            all[i],
        ),
        !droppable(all[i].bucket, max, protected) ==> kept_buckets(all.take(i + 1), max, protected) == kept.push(all[i])
            && droppable_buckets(all.take(i + 1), max, protected) == droppable_buckets(all.take(i), max, protected),
{
    assert(all.take(i + 1).drop_last() =~= all.take(i));
    assert(all.take(i + 1).last() == all[i]);
}

impl IndexedTable {
    /// Drops every bucket that contains neither a protected row nor any row id greater than
    /// `max_row_id`.
    ///
    /// Returns what was dropped and how many bytes the buckets took up.
    pub fn try_drop_bucket(
        &mut self,
        max_row_id: RowId,
        protected: &RowIdSet,
    ) -> (r: (Vec<StoreDiff>, u64))
        requires
            old(self).wf(),
        ensures
            final(self).wf(),
            ({
                let dropped = drop_buckets_spec(old(self)@, max_row_id, protected@);
                &&& final(self)@ == dropped.table
                &&& diff_views(r.0@) == dropped.diffs
                &&& r.1 == dropped.num_bytes
            }),
    {
        let ghost table = self@;
        let ghost all = table.buckets;
        let timeline = self.timeline;
        let entity_path = clone_path(&self.entity_path);
        let mut diffs: Vec<StoreDiff> = Vec::new();
        let mut dropped_num_bytes: u64 = 0;
        let mut dropped_num_rows: u64 = 0;
        let mut at: usize = 0;
        let ghost mut i: int = 0;
        proof {
            lemma_drop_buckets_valid(table, max_row_id, protected@);
            assert(all.take(0) =~= Seq::<TableBucket>::empty());
            assert(bucket_views(self.buckets@) =~= kept_buckets(all.take(0), max_row_id, protected@) + all.skip(
                0,
            ));
            assert(all.take(all.len() as int) =~= all);
        }
        while at < self.buckets.len()
            invariant
                0 <= i <= all.len(),
                table == old(self)@,
                all == table.buckets,
                all.take(all.len() as int) == all,
                at == kept_buckets(all.take(i), max_row_id, protected@).len(),
                bucket_views(self.buckets@) == kept_buckets(all.take(i), max_row_id, protected@) + all.skip(i),
                forall|b: int|
                    0 <= b < self.buckets@.len() ==> (#[trigger] self.buckets@[b]).inner.wf(),
                diff_views(diffs@) == bucket_diffs(
                    droppable_buckets(all.take(i), max_row_id, protected@),
                    timeline,
                    entity_path,
                ),
                dropped_num_bytes == buckets_size(droppable_buckets(all.take(i), max_row_id, protected@)),
                buckets_size(droppable_buckets(all, max_row_id, protected@)) <= self.buckets_size_bytes,
                dropped_num_rows == buckets_rows(droppable_buckets(all.take(i), max_row_id, protected@)),
                buckets_rows(droppable_buckets(all, max_row_id, protected@)) <= self.buckets_num_rows,
                self.timeline == table.timeline,
                self.entity_path == table.entity_path,
                timeline == table.timeline,
                entity_path == table.entity_path,
                self.all_components == old(self).all_components,
                self.buckets_num_rows == old(self).buckets_num_rows,
                self.buckets_size_bytes == old(self).buckets_size_bytes,
                self.store_insert_ids == old(self).store_insert_ids,
            decreases self.buckets@.len() - at,
        {
            let ghost kept = kept_buckets(all.take(i), max_row_id, protected@);
            let ghost before = bucket_views(self.buckets@);
            proof {
                assert(before.len() == kept.len() + all.len() - i);
                assert(i < all.len());
                assert(before[at as int] == all[i]);
                lemma_kept_step(kept, all, i, max_row_id, protected@);
                assert(self.buckets@[at as int].inner.wf());
            }
            if !self.buckets[at].inner.is_outdated(max_row_id, protected) {
                proof {
                    i = i + 1;
                    assert(before =~= kept_buckets(all.take(i), max_row_id, protected@) + all.skip(i));
                }
                at += 1;
                continue;
            }
            proof {
                lemma_droppable_bound(all, i, max_row_id, protected@);
                lemma_bucket_size_positive(all[i].bucket);
                let done = droppable_buckets(all.take(i), max_row_id, protected@);
                assert(done.push(all[i]).drop_last() =~= done);
            }
            let mut bucket = self.buckets.remove(at);
            let mut more = bucket.inner.sorted_row_diffs(timeline, &entity_path);
            proof {
                lemma_diff_views_append(diffs@, more@);
            }
            diffs.append(&mut more);
            dropped_num_bytes = dropped_num_bytes + bucket.inner.total_size_bytes();
            dropped_num_rows = dropped_num_rows + bucket.inner.num_rows() as u64;
            proof {
                i = i + 1;
                assert(bucket_views(self.buckets@) =~= before.remove(at as int));
                assert(bucket_views(self.buckets@) =~= kept_buckets(all.take(i), max_row_id, protected@)
                    + all.skip(i));
            }
        }
        proof {
            assert(bucket_views(self.buckets@).len() == self.buckets@.len());
            assert(i == all.len());
            assert(all.skip(i) =~= Seq::<TableBucket>::empty());
            assert(bucket_views(self.buckets@) =~= kept_buckets(all, max_row_id, protected@));
            lemma_kept(all, max_row_id, protected@);
            reveal_with_fuel(buckets_size, 1);
        }
        self.buckets_size_bytes = self.buckets_size_bytes - dropped_num_bytes;
        self.buckets_num_rows = self.buckets_num_rows - dropped_num_rows;
        self.uphold_indexing_invariants();
        assert(self@ =~= drop_buckets_spec(table, max_row_id, protected@).table);
        (diffs, dropped_num_bytes)
    }
}

/// What was dropped so far, and the next bucket as well, take up no more than all that will be.
proof fn lemma_droppable_bound(all: Seq<TableBucket>, i: int, max: RowId, protected: Set<u128>)
    requires
        0 <= i < all.len(),
        droppable(all[i].bucket, max, protected),
    ensures
        buckets_size(droppable_buckets(all.take(i), max, protected)) + all[i].bucket.size() <= buckets_size(
            droppable_buckets(all, max, protected),
        ),
        buckets_rows(droppable_buckets(all.take(i), max, protected)) + all[i].bucket.rows.len()
            <= buckets_rows(droppable_buckets(all, max, protected)),
    decreases all.len(),
{
    let init = all.drop_last();
    if i < init.len() {
        lemma_droppable_bound(init, i, max, protected);
        assert(init.take(i) =~= all.take(i));
        let rest = droppable_buckets(init, max, protected);
        if droppable(all.last().bucket, max, protected) {
            assert(rest.push(all.last()).drop_last() =~= rest);
            lemma_bucket_size_positive(all.last().bucket);
        }
    } else {
        assert(all.take(i) =~= init);
        let rest = droppable_buckets(init, max, protected);
        assert(rest.push(all.last()).drop_last() =~= rest);
    }
}

// --- Adding a row.

/// Whether a row at `time` opens a new bucket: the last one is full, and all of it lies before.
pub open spec fn opens_bucket(table: TableView, bucket_num_rows: u64, time: i64) -> bool {
    let last = table.buckets.last().bucket;
    &&& bucket_of(table.buckets, time) == table.buckets.len() - 1
    &&& last.rows.len() > 0
    &&& last.rows.len() >= bucket_num_rows
    &&& last.rows.last().time < time
}

/// A table with a row added to it.
pub open spec fn table_with(
    table: TableView,
    bucket_num_rows: u64,
    time: i64,
    row_id: RowId,
    insert_id: u64,
    cells: Seq<DataCell>,
) -> TableView {
    let b = bucket_of(table.buckets, time);
    TableView {
        buckets: if opens_bucket(table, bucket_num_rows, time) {
            table.buckets.push(
                TableBucket {
                    start: time,
                    bucket: bucket_with(
                        empty_bucket(table.store_insert_ids),
                        time,
                        row_id,
                        insert_id,
                        cells,
                    ),
                },
            )
        } else {
            table.buckets.update(
                b,
                TableBucket {
                    start: table.buckets[b].start,
                    bucket: bucket_with(table.buckets[b].bucket, time, row_id, insert_id, cells),
                },
            )
        },
        all_components: with_columns(table.all_components, cells),
        num_rows: table.num_rows + 1,
        ..table
    }
}

pub proof fn lemma_with_columns_contains(
    columns: Seq<Seq<char>>,
    cells: Seq<DataCell>,
    name: Seq<char>,
)
    ensures
        with_columns(columns, cells).contains(name) <==> columns.contains(name) || has_component(
            cells,
            name,
        ),
    decreases cells.len(),
{
    if cells.len() > 0 {
        let init = cells.drop_last();
        lemma_with_columns_contains(columns, init, name);
        let rest = with_columns(columns, init);
        let last = cells.last().component_name@;
        let out = with_columns(columns, cells);
        if !rest.contains(last) {
            assert(out == rest.push(last));
            if rest.contains(name) {
                assert(out[rest.index_of(name)] == name);
            }
            if last == name {
                assert(out[rest.len() as int] == name);
            }
            if out.contains(name) {
                let i = out.index_of(name);
                if i < rest.len() {
                    assert(rest[i] == name);
                }
            }
        }
        if has_component(init, name) {
            let i = choose|i: int|
                0 <= i < init.len() && (#[trigger] init[i]).component_name@ == name;
            assert(cells[i].component_name@ == name);
        }
        if has_component(cells, name) {
            let i = choose|i: int|
                0 <= i < cells.len() && (#[trigger] cells[i]).component_name@ == name;
            if i < init.len() {
                assert(init[i].component_name@ == name);
            }
        }
        if last == name {
            assert(cells[cells.len() - 1].component_name@ == name);
        }
    }
}

/// A table that a row was added to is valid.
pub proof fn lemma_table_with_valid(
    table: TableView,
    bucket_num_rows: u64,
    time: i64,
    row_id: RowId,
    insert_id: u64,
    cells: Seq<DataCell>,
)
    requires
        table.valid(),
        time >= TIME_MIN,
        !table.has_row_id(row_id),
    ensures
        table_with(table, bucket_num_rows, time, row_id, insert_id, cells).valid(),
{
    reveal(TableView::valid);
    let b = bucket_of(table.buckets, time);
    lemma_bucket_of(table.buckets, time);
    let all = table.buckets;
    let out = table_with(table, bucket_num_rows, time, row_id, insert_id, cells);
    let opens = opens_bucket(table, bucket_num_rows, time);
    let at = if opens {
        all.len() as int
    } else {
        b
    };
    let base = if opens {
        empty_bucket(table.store_insert_ids)
    } else {
        all[b].bucket
    };
    assert(base.valid()) by {
        assert(all[b].bucket.valid());
    }
    assert forall|i: int| 0 <= i < base.rows.len() implies (#[trigger] base.rows[i]).row_id
        != row_id by {
        assert(all[b].bucket.rows[i].row_id != row_id);
    }
    let grown = bucket_with(base, time, row_id, insert_id, cells);
    lemma_bucket_with_valid(base, time, row_id, insert_id, cells);
    assert(out.buckets[at].bucket == grown);
    if opens {
        assert(out.buckets.drop_last() =~= all);
    } else {
        lemma_buckets_update(all, b, out.buckets[b]);
    }
    // Every row of the bucket that grew was there before, or is the new one.
    assert forall|j: int| 0 <= j < grown.rows.len() implies {
        let x = #[trigger] grown.rows[j];
        x.row_id == row_id && x.time == time || exists|i: int|
            0 <= i < base.rows.len() && (#[trigger] base.rows[i]).row_id == x.row_id
                && base.rows[i].time == x.time
    } by {
        assert(grown.rows.contains(grown.rows[j]));
    }
    assert forall|a: int, c: int|
        #![trigger out.buckets[a], out.buckets[c]]
        0 <= a < c < out.buckets.len() implies out.buckets[a].start < out.buckets[c].start by {
        if c < all.len() {
            assert(all[a].start < all[c].start);
        } else {
            if a < b {
                assert(all[a].start < all[b].start);
            }
            let last = all[b].bucket;
            assert(all[b].start <= last.rows[last.rows.len() - 1].time);
        }
    }
    assert forall|a: int, j: int|
        #![trigger out.buckets[a].bucket.rows[j]]
        0 <= a < out.buckets.len() && 0 <= j < out.buckets[a].bucket.rows.len() implies {
        &&& out.buckets[a].start <= out.buckets[a].bucket.rows[j].time
        &&& a + 1 < out.buckets.len() ==> out.buckets[a].bucket.rows[j].time < out.buckets[a
            + 1].start
    } by {
        if a == at {
            let x = grown.rows[j];
            if !(x.row_id == row_id && x.time == time) {
                let i = choose|i: int|
                    0 <= i < base.rows.len() && (#[trigger] base.rows[i]).row_id == x.row_id
                        && base.rows[i].time == x.time;
                assert(all[b].bucket.rows[i].time == x.time);
            } else if a + 1 < out.buckets.len() {
                assert(all[a + 1].start > time);
            }
        } else {
            assert(out.buckets[a].bucket.rows[j] == all[a].bucket.rows[j]);
            if opens && a + 1 == all.len() {
                let last = all[b].bucket;
                assert(last.valid());
                if j < last.rows.len() - 1 {
                    assert(row_before(last.rows[j], last.rows[last.rows.len() - 1]));
                }
            }
        }
    }
    assert forall|a: int, c: int, j: int, k: int|
        #![trigger out.buckets[a].bucket.rows[j], out.buckets[c].bucket.rows[k]]
        0 <= a < c < out.buckets.len() && 0 <= j < out.buckets[a].bucket.rows.len() && 0 <= k
            < out.buckets[c].bucket.rows.len() implies out.buckets[a].bucket.rows[j].row_id
        != out.buckets[c].bucket.rows[k].row_id by {
        let x = out.buckets[a].bucket.rows[j];
        let y = out.buckets[c].bucket.rows[k];
        if a == at {
            assert(y == all[c].bucket.rows[k]);
            assert(y.row_id != row_id);
            if x.row_id != row_id {
                let i = choose|i: int|
                    0 <= i < base.rows.len() && (#[trigger] base.rows[i]).row_id == x.row_id
                        && base.rows[i].time == x.time;
                assert(all[a].bucket.rows[i].row_id == x.row_id);
            }
        } else if c == at {
            assert(x == all[a].bucket.rows[j]);
            assert(x.row_id != row_id);
            if y.row_id != row_id {
                let i = choose|i: int|
                    0 <= i < base.rows.len() && (#[trigger] base.rows[i]).row_id == y.row_id
                        && base.rows[i].time == y.time;
                assert(all[c].bucket.rows[i].row_id == y.row_id);
            }
        } else {
            assert(x == all[a].bucket.rows[j]);
            assert(y == all[c].bucket.rows[k]);
        }
    }
    assert forall|a: int, k: int|
        #![trigger out.buckets[a].bucket.columns[k]]
        0 <= a < out.buckets.len() && 0 <= k < out.buckets[a].bucket.columns.len() implies out.all_components.contains(
        out.buckets[a].bucket.columns[k],
    ) by {
        let name = out.buckets[a].bucket.columns[k];
        lemma_with_columns_contains(table.all_components, cells, name);
        if a == at {
            lemma_with_columns_contains(base.columns, cells, name);
            assert(grown.columns.contains(name));
            if base.columns.contains(name) {
                let m = base.columns.index_of(name);
                assert(table.all_components.contains(all[b].bucket.columns[m]));
            }
        } else {
            assert(name == all[a].bucket.columns[k]);
        }
    }
    assert forall|a: int| 0 <= a < out.buckets.len() implies {
        &&& (#[trigger] out.buckets[a]).bucket.valid()
        &&& out.buckets[a].bucket.store_insert_ids == table.store_insert_ids
        &&& out.buckets.len() > 1 ==> out.buckets[a].bucket.rows.len() > 0
    } by {
        if a != at {
            assert(all[a].bucket.valid());
        }
    }
}

impl IndexedTable {
    /// Adds a row.
    pub fn insert_row(
        &mut self,
        bucket_num_rows: u64,
        time: TimeInt,
        row_id: RowId,
        insert_id: u64,
        cells: &Vec<DataCell>,
    )
        requires
            old(self).wf(),
            time.value >= TIME_MIN,
            !old(self)@.has_row_id(row_id),
            old(self).buckets_num_rows < u64::MAX,
            table_with(
                old(self)@,
                bucket_num_rows,
                time.value,
                row_id,
                insert_id,
                cells@,
            ).size() <= u64::MAX,
        ensures
            final(self).wf(),
            final(self)@ == table_with(
                old(self)@,
                bucket_num_rows,
                time.value,
                row_id,
                insert_id,
                cells@,
            ),
    {
        let ghost table = self@;
        let ghost out = table_with(table, bucket_num_rows, time.value, row_id, insert_id, cells@);
        proof {
            lemma_table_with_valid(table, bucket_num_rows, time.value, row_id, insert_id, cells@);
            lemma_table_bucket_of(table, time.value);
        }
        let b: usize = self.find_bucket(time);
        let ghost base = table.buckets[b as int].bucket;
        assert(self.buckets@[b as int].inner.wf());
        let last: usize = self.buckets.len() - 1;
        let num_rows: usize = self.buckets[b].inner.num_rows();
        let opens = b == last && num_rows > 0 && num_rows as u64 >= bucket_num_rows
            && self.buckets[b].inner.ends_before(time.value);
        assert(opens == opens_bucket(table, bucket_num_rows, time.value));
        if opens {
            let mut inner = IndexedBucketInner::new(self.store_insert_ids);
            proof {
                assert(out.buckets.drop_last() =~= table.buckets);
                lemma_buckets_nonneg(table.buckets);
                lemma_bucket_size_positive(out.buckets.last().bucket);
            }
            inner.insert_row(time, row_id, insert_id, cells);
            self.buckets_size_bytes = self.buckets_size_bytes + inner.total_size_bytes();
            self.buckets.push(IndexedBucket { start: time, inner });
        } else {
            proof {
                lemma_buckets_update(table.buckets, b as int, out.buckets[b as int]);
                lemma_bucket_bound(table.buckets, b as int);
                lemma_bucket_bound(out.buckets, b as int);
                assert forall|i: int| 0 <= i < base.rows.len() implies (
                #[trigger] base.rows[i]).row_id != row_id by {
                    assert(table.buckets[b as int].bucket.rows[i].row_id != row_id);
                }
            }
            let before: u64 = self.buckets[b].inner.total_size_bytes();
            self.buckets[b].inner.insert_row(time, row_id, insert_id, cells);
            let after: u64 = self.buckets[b].inner.total_size_bytes();
            self.buckets_size_bytes = (self.buckets_size_bytes - before) + after;
        }
        assert(bucket_views(self.buckets@) =~= out.buckets);
        self.buckets_num_rows = self.buckets_num_rows + 1;
        add_component_names(&mut self.all_components, cells);
        assert(self@ =~= out);
    }
}

impl IndexedBucketInner {
    /// Whether all rows lie before a time.
    pub fn ends_before(&self, time: i64) -> (r: bool)
        requires
            self.wf(),
            self@.rows.len() > 0,
        ensures
            r == (self@.rows.last().time < time),
    {
        proof {
            reveal(IndexedBucketInner::wf);
        }
        self.time_range.max.value < time
    }
}

/// Adds the components of cells to a list of names, unless they are on it.
pub fn add_component_names(names: &mut Vec<ComponentName>, cells: &Vec<DataCell>)
    ensures
        name_views(final(names)@) == with_columns(name_views(old(names)@), cells@),
{
    let mut i: usize = 0;
    while i < cells.len()
        invariant
            i <= cells@.len(),
            name_views(names@) == with_columns(name_views(old(names)@), cells@.take(i as int)),
        decreases cells@.len() - i,
    {
        let name = cells[i].component_name;
        proof {
            assert(cells@.take(i + 1).drop_last() =~= cells@.take(i as int));
            lemma_names_contain(names@, name@);
        }
        if !is_one_of(&name, names) {
            let ghost before = names@;
            names.push(name);
            assert(name_views(names@) =~= name_views(before).push(name@));
        }
        i += 1;
    }
    assert(cells@.take(i as int) =~= cells@);
}

pub proof fn lemma_names_contain(names: Seq<ComponentName>, name: Seq<char>)
    ensures
        names_contain(names, name) <==> name_views(names).contains(name),
{
    if names_contain(names, name) {
        let i = choose|i: int| 0 <= i < names.len() && (#[trigger] names[i])@ == name;
        assert(name_views(names)[i] == name);
    }
    if name_views(names).contains(name) {
        let i = name_views(names).index_of(name);
        assert(names[i]@ == name);
    }
}

/// What a table takes up once a row of these cells was added to it, in bytes.
pub open spec fn table_grown_size(
    table: TableView,
    bucket_num_rows: u64,
    time: i64,
    cells: Seq<DataCell>,
) -> int {
    let b = bucket_of(table.buckets, time);
    if opens_bucket(table, bucket_num_rows, time) {
        table.size() + grown_size(empty_bucket(table.store_insert_ids), cells)
    } else {
        table.size() - table.buckets[b].bucket.size() + grown_size(table.buckets[b].bucket, cells)
    }
}

/// [`table_grown_size`] is what the table takes up with the row in it.
pub proof fn lemma_table_grown_size(
    table: TableView,
    bucket_num_rows: u64,
    time: i64,
    row_id: RowId,
    insert_id: u64,
    cells: Seq<DataCell>,
)
    requires
        table.valid(),
        time >= TIME_MIN,
        components_distinct(cells),
    ensures
        table_with(table, bucket_num_rows, time, row_id, insert_id, cells).size()
            == table_grown_size(table, bucket_num_rows, time, cells),
{
    let out = table_with(table, bucket_num_rows, time, row_id, insert_id, cells);
    let b = bucket_of(table.buckets, time);
    lemma_table_bucket_of(table, time);
    if opens_bucket(table, bucket_num_rows, time) {
        lemma_grown_size(empty_bucket(table.store_insert_ids), time, row_id, insert_id, cells);
        assert(out.buckets.drop_last() =~= table.buckets);
    } else {
        lemma_grown_size(table.buckets[b].bucket, time, row_id, insert_id, cells);
        lemma_buckets_update(table.buckets, b, out.buckets[b]);
    }
}

impl IndexedTable {
    /// Whether the books of the table can take in one more row of these cells.
    pub fn can_insert(
        &self,
        bucket_num_rows: u64,
        time: TimeInt,
        cells: &Vec<DataCell>,
    ) -> (r: bool)
        requires
            self.wf(),
            time.value >= TIME_MIN,
        ensures
            r == (self.buckets_num_rows < u64::MAX && table_grown_size(
                self@,
                bucket_num_rows,
                time.value,
                cells@,
            ) <= u64::MAX),
    {
        let ghost table = self@;
        proof {
            lemma_table_bucket_of(table, time.value);
        }
        let b: usize = self.find_bucket(time);
        proof {
            assert(self.buckets@[b as int].inner.wf());
            lemma_bucket_bound(table.buckets, b as int);
        }
        let last: usize = self.buckets.len() - 1;
        let num_rows: usize = self.buckets[b].inner.num_rows();
        let opens = b == last && num_rows > 0 && num_rows as u64 >= bucket_num_rows
            && self.buckets[b].inner.ends_before(time.value);
        assert(opens == opens_bucket(table, bucket_num_rows, time.value));
        let (rest, grown): (u64, Option<u64>) = if opens {
            (
                self.buckets_size_bytes,
                IndexedBucketInner::new(self.store_insert_ids).size_with(cells),
            )
        } else {
            (
                self.buckets_size_bytes - self.buckets[b].inner.total_size_bytes(),
                self.buckets[b].inner.size_with(cells),
            )
        };
        match grown {
            Some(grown) => self.buckets_num_rows < u64::MAX && rest <= u64::MAX - grown,
            None => false,
        }
    }

    /// Whether the table holds a row with this id.
    pub fn holds_row_id(&self, row_id: RowId) -> (r: bool)
        requires
            self.wf(),
        ensures
            r == self@.has_row_id(row_id),
    {
        let mut b: usize = 0;
        while b < self.buckets.len()
            invariant
                b <= self.buckets@.len(),
                forall|b: int|
                    0 <= b < self.buckets@.len() ==> (#[trigger] self.buckets@[b]).inner.wf(),
                forall|c: int, i: int|
                    #![trigger self@.buckets[c].bucket.rows[i]]
                    0 <= c < b && 0 <= i < self@.buckets[c].bucket.rows.len()
                        ==> self@.buckets[c].bucket.rows[i].row_id != row_id,
            decreases self.buckets@.len() - b,
        {
            assert(self.buckets@[b as int].inner.wf());
            if self.buckets[b].inner.holds_row_id(row_id) {
                proof {
                    let rows = self@.buckets[b as int].bucket.rows;
                    let i = choose|i: int|
                        0 <= i < rows.len() && (#[trigger] rows[i]).row_id == row_id;
                    assert(self@.buckets[b as int].bucket.rows[i].row_id == row_id);
                }
                return true;
            }
            b += 1;
        }
        false
    }
}

impl IndexedBucketInner {
    /// Whether the bucket holds a row with this id.
    pub fn holds_row_id(&self, row_id: RowId) -> (r: bool)
        requires
            self.wf(),
        ensures
            r == exists|i: int|
                0 <= i < self@.rows.len() && (#[trigger] self@.rows[i]).row_id == row_id,
    {
        let ghost stored = self.stored_rows();
        proof {
            reveal(IndexedBucketInner::wf);
            crate::sorting::lemma_ordered(stored);
        }
        if row_id.bits > self.max_row_id.bits {
            return false;
        }
        let mut i: usize = 0;
        while i < self.col_row_id.len()
            invariant
                i <= self.col_row_id@.len(),
                stored == self.stored_rows(),
                forall|j: int| 0 <= j < i ==> #[trigger] self.col_row_id@[j] != row_id,
                forall|x: BucketRow|
                    #![trigger self@.rows.contains(x)]
                    #![trigger stored.contains(x)]
                    self@.rows.contains(x) <==> stored.contains(x),
            decreases self.col_row_id@.len() - i,
        {
            if self.col_row_id[i].bits == row_id.bits {
                proof {
                    assert(stored[i as int].row_id == row_id);
                    assert(stored.contains(stored[i as int]));
                    let k = self@.rows.index_of(stored[i as int]);
                    assert(self@.rows[k].row_id == row_id);
                }
                return true;
            }
            i += 1;
        }
        proof {
            assert forall|k: int| 0 <= k < self@.rows.len() implies (#[trigger] self@.rows[k]).row_id
                != row_id by {
                assert(self@.rows.contains(self@.rows[k]));
                let j = stored.index_of(self@.rows[k]);
                assert(self.col_row_id@[j] == stored[j].row_id);
            }
        }
        false
    }
}

} // verus!

//! Buckets: the columns of the rows of one table that lie in one stretch of time.
use crate::names::{ComponentName, RowId, TimeInt, Timeline, TIME_MAX, TIME_MIN};
use crate::path::clone_path;
use crate::row::{
    components_distinct, find_component, has_component, DataCell, DiffView, StoreDiff,
    StoreDiffKind,
};
use crate::sorting::{
    insert_sorted, lemma_insert_sorted, lemma_insert_sorted_at, lemma_ordered, lemma_ordered_sorted,
    lemma_remove_sorted, lemma_sorted_unique, ordered, row_before, row_ids_distinct, rows_sorted,
    BucketRow,
};
use re_log_types::{EntityPath, VecDequeRemovalExt};
use std::collections::VecDeque;
use vstd::prelude::*;

verus! {

/// What the bookkeeping of a bucket takes up, in bytes, without any rows.
pub const BUCKET_OVERHEAD_BYTES: u64 = 168;

/// What a row id takes up, in bytes.
pub const ROW_ID_BYTES: u64 = 16;

/// What a time takes up, in bytes.
pub const TIME_BYTES: u64 = 8;

/// What the number of an insertion takes up, in bytes.
pub const INSERT_ID_BYTES: u64 = 8;

/// What the slot for a cell takes up, in bytes, whether or not there is one in it.
pub const CELL_SLOT_BYTES: u64 = 8;

/// The times between two ends, both of them included.
#[derive(Clone, Copy, Debug, PartialEq, Eq, Structural)]
pub struct ResolvedTimeRange {
    pub min: TimeInt,
    pub max: TimeInt,
}

/// The range that holds no time at all.
pub open spec fn empty_time_range() -> ResolvedTimeRange {
    ResolvedTimeRange { min: TimeInt { value: TIME_MAX }, max: TimeInt { value: TIME_MIN } }
}

impl ResolvedTimeRange {
    pub fn empty() -> (r: ResolvedTimeRange)
        ensures
            r == empty_time_range(),
    {
        ResolvedTimeRange { min: TimeInt { value: TIME_MAX }, max: TimeInt { value: TIME_MIN } }
    }
}

/// The cells of one component, one slot per row.
#[derive(Debug)]
pub struct Column {
    pub name: ComponentName,
    pub cells: VecDeque<Option<DataCell>>,
}

/// A deque after an element was taken out and, unless it was at an end, replaced by the element at
/// the end that is closer.
pub open spec fn swap_removed<T>(items: Seq<T>, index: int) -> Seq<T> {
    if index == 0 {
        items.skip(1)
    } else if index + 1 == items.len() {
        items.drop_last()
    } else if index < items.len() as int / 2 {
        items.update(index, items[0]).skip(1)
    } else {
        items.update(index, items.last()).drop_last()
    }
}

/// Takes an element out of a deque in constant time.
///
/// Calls `VecDequeRemovalExt::swap_remove` of `re_log_types`: an element at either end just leaves,
/// any other one changes places first with the element at the end that is closer.
#[verifier::external_body]
pub(crate) fn swap_remove<T: Clone>(items: &mut VecDeque<T>, index: usize) -> (r: Option<T>)
    requires
        index < old(items)@.len(),
    ensures
        r is Some,
        cloned(old(items)@[index as int], r->0) || r->0 == old(items)@[index as int],
        final(items)@ == swap_removed(old(items)@, index as int),
{
    items.swap_remove(index)
}

/// What one row takes up, in bytes.
pub open spec fn row_size(row: BucketRow) -> int {
    ROW_ID_BYTES + TIME_BYTES + (if row.insert_id is Some {
        INSERT_ID_BYTES as int
    } else {
        0
    }) + cells_size(row.cells)
}

/// What the slots of a row take up, in bytes, together with the cells in them.
pub open spec fn cells_size(cells: Seq<Option<DataCell>>) -> int
    decreases cells.len(),
{
    if cells.len() == 0 {
        0
    } else {
        cells_size(cells.drop_last()) + CELL_SLOT_BYTES + cell_heap_size(cells.last())
    }
}

pub open spec fn cell_heap_size(cell: Option<DataCell>) -> int {
    match cell {
        Some(cell) => cell.size_bytes as int,
        None => 0,
    }
}

/// What rows take up, in bytes.
pub open spec fn rows_size(rows: Seq<BucketRow>) -> int
    decreases rows.len(),
{
    if rows.len() == 0 {
        0
    } else {
        rows_size(rows.drop_last()) + row_size(rows.last())
    }
}

/// The cells that a row does have.
pub open spec fn present(cells: Seq<Option<DataCell>>) -> Seq<DataCell>
    decreases cells.len(),
{
    if cells.len() == 0 {
        Seq::empty()
    } else {
        let rest = present(cells.drop_last());
        match cells.last() {
            Some(cell) => rest.push(cell),
            None => rest,
        }
    }
}

/// Where among the rows the one with this id and time is.
pub open spec fn row_index(rows: Seq<BucketRow>, row_id: RowId, time: i64) -> Option<int> {
    if exists|i: int|
        0 <= i < rows.len() && (#[trigger] rows[i]).row_id == row_id && rows[i].time == time {
        Some(
            choose|i: int|
                0 <= i < rows.len() && (#[trigger] rows[i]).row_id == row_id && rows[i].time
                    == time,
        )
    } else {
        None
    }
}

/// What is reported when a row leaves one table: nothing if it held no cells at all.
pub open spec fn dropped_row_diff(
    row: BucketRow,
    timeline: Timeline,
    time: TimeInt,
    entity_path: EntityPath,
) -> Option<DiffView> {
    let cells = present(row.cells);
    if cells.len() == 0 {
        None
    } else {
        Some(
            DiffView {
                kind: StoreDiffKind::Deletion,
                row_id: row.row_id,
                times: seq![(timeline, time)],
                entity_path,
                cells,
            },
        )
    }
}

pub open spec fn opt_diff(diff: Option<StoreDiff>) -> Option<DiffView> {
    match diff {
        Some(diff) => Some(diff@),
        None => None,
    }
}

/// The rows of a bucket, column by column.
#[derive(Debug)]
pub struct IndexedBucketInner {
    /// Whether the rows lie in the order of time and row id.
    pub is_sorted: bool,
    /// From the first time to the last.
    pub time_range: ResolvedTimeRange,
    pub col_time: VecDeque<i64>,
    /// The number of the insertion that each row came with, if they are kept.
    pub col_insert_id: VecDeque<u64>,
    pub col_row_id: VecDeque<RowId>,
    /// The largest row id in the bucket, or zero.
    pub max_row_id: RowId,
    pub columns: Vec<Column>,
    pub size_bytes: u64,
    /// Whether insertion numbers are kept.
    pub store_insert_ids: bool,
}

/// What contracts know of a bucket: its columns, and its rows in order.
#[verifier::ext_equal]
pub struct BucketView {
    pub columns: Seq<Seq<char>>,
    pub rows: Seq<BucketRow>,
    pub store_insert_ids: bool,
}

impl BucketView {
    /// What the bucket takes up, in bytes.
    pub open spec fn size(self) -> int {
        BUCKET_OVERHEAD_BYTES + rows_size(self.rows)
    }

    /// From the first time to the last.
    pub open spec fn time_range(self) -> ResolvedTimeRange {
        if self.rows.len() == 0 {
            empty_time_range()
        } else {
            ResolvedTimeRange {
                min: TimeInt { value: self.rows[0].time },
                max: TimeInt { value: self.rows.last().time },
            }
        }
    }

    /// Everything that is true of any bucket.
    pub open spec fn valid(self) -> bool {
        &&& rows_sorted(self.rows)
        &&& row_ids_distinct(self.rows)
        &&& names_distinct(self.columns)
        &&& forall|i: int|
            0 <= i < self.rows.len() ==> {
                &&& (#[trigger] self.rows[i]).cells.len() == self.columns.len()
                &&& self.rows[i].time >= TIME_MIN
                &&& (self.rows[i].insert_id is Some) == self.store_insert_ids
            }
        &&& forall|i: int, k: int|
            #![trigger self.rows[i].cells[k]]
            0 <= i < self.rows.len() && 0 <= k < self.columns.len() && self.rows[i].cells[k] is Some
                ==> self.rows[i].cells[k]->0.component_name@ == self.columns[k]
    }
}

/// Whether no name occurs twice.
pub open spec fn names_distinct(names: Seq<Seq<char>>) -> bool {
    forall|i: int, j: int|
        #![trigger names[i], names[j]]
        0 <= i < j < names.len() ==> names[i] != names[j]
}

/// The bucket without rows.
pub open spec fn empty_bucket(store_insert_ids: bool) -> BucketView {
    BucketView { columns: Seq::empty(), rows: Seq::empty(), store_insert_ids }
}

/// A bucket without one of its rows.
pub open spec fn bucket_without(bucket: BucketView, at: int) -> BucketView {
    BucketView { rows: bucket.rows.remove(at), ..bucket }
}

/// Whether `max` is the largest row id, or zero if there are no rows.
pub open spec fn is_max_row_id(rows: Seq<BucketRow>, max: RowId) -> bool {
    &&& forall|i: int| 0 <= i < rows.len() ==> (#[trigger] rows[i]).row_id.bits <= max.bits
    &&& if rows.len() == 0 {
        max.bits == 0
    } else {
        exists|i: int| 0 <= i < rows.len() && (#[trigger] rows[i]).row_id == max
    }
}

impl IndexedBucketInner {
    /// The rows as they lie in memory.
    pub open spec fn stored_rows(self) -> Seq<BucketRow> {
        Seq::new(
            self.col_row_id@.len(),
            |i: int|
                BucketRow {
                    time: self.col_time@[i],
                    row_id: self.col_row_id@[i],
                    insert_id: if self.store_insert_ids {
                        Some(self.col_insert_id@[i])
                    } else {
                        None
                    },
                    cells: Seq::new(self.columns@.len(), |k: int| self.columns@[k].cells@[i]),
                },
        )
    }

    pub open spec fn column_names(self) -> Seq<Seq<char>> {
        Seq::new(self.columns@.len(), |k: int| self.columns@[k].name@)
    }

    /// Whether all the columns are of the same length.
    pub open spec fn aligned(self) -> bool {
        &&& self.col_time@.len() == self.col_row_id@.len()
        &&& self.col_insert_id@.len() == if self.store_insert_ids {
            self.col_row_id@.len()
        } else {
            0
        }
        &&& forall|k: int|
            0 <= k < self.columns@.len() ==> (#[trigger] self.columns@[k]).cells@.len()
                == self.col_row_id@.len()
    }

    /// Everything that is true of any bucket and of how it is kept.
    #[verifier::opaque]
    pub open spec fn wf(self) -> bool {
        &&& self.aligned()
        &&& row_ids_distinct(self.stored_rows())
        &&& self@.valid()
        &&& self.is_sorted ==> rows_sorted(self.stored_rows())
        &&& self.time_range == self@.time_range()
        &&& is_max_row_id(self@.rows, self.max_row_id)
        &&& self.size_bytes == self@.size()
    }
}

impl View for IndexedBucketInner {
    type V = BucketView;

    open spec fn view(&self) -> BucketView {
        BucketView {
            columns: self.column_names(),
            rows: ordered(self.stored_rows()),
            store_insert_ids: self.store_insert_ids,
        }
    }
}

impl IndexedBucketInner {
    pub fn new(store_insert_ids: bool) -> (r: IndexedBucketInner)
        ensures
            r.wf(),
            r@ == empty_bucket(store_insert_ids),
    {
        proof {
            reveal(IndexedBucketInner::wf);
        }
        let r = IndexedBucketInner {
            is_sorted: true,
            time_range: ResolvedTimeRange::empty(),
            col_time: VecDeque::new(),
            col_insert_id: VecDeque::new(),
            col_row_id: VecDeque::new(),
            max_row_id: RowId::zero(),
            columns: Vec::new(),
            size_bytes: BUCKET_OVERHEAD_BYTES,
            store_insert_ids,
        };
        assert(r.column_names() =~= Seq::<Seq<char>>::empty());
        assert(r@.rows =~= Seq::<BucketRow>::empty());
        r
    }

    pub fn num_rows(&self) -> (r: usize)
        requires
            self.wf(),
        ensures
            r == self@.rows.len(),
    {
        proof {
            reveal(IndexedBucketInner::wf);
        }
        proof {
            lemma_ordered(self.stored_rows());
        }
        self.col_row_id.len()
    }

    pub fn total_size_bytes(&self) -> (r: u64)
        requires
            self.wf(),
        ensures
            r == self@.size(),
    {
        proof {
            reveal(IndexedBucketInner::wf);
        }
        self.size_bytes
    }
}

// --- Order.

/// What moving an element forward in a deque gives.
pub open spec fn moved<T>(items: Seq<T>, from: int, to: int) -> Seq<T> {
    items.remove(from).insert(to, items[from])
}

/// Moves an element forward in a deque.
fn move_item<T>(items: &mut VecDeque<T>, from: usize, to: usize)
    requires
        to <= from < old(items)@.len(),
    ensures
        final(items)@ == moved(old(items)@, from as int, to as int),
{
    if let Some(item) = items.remove(from) {
        items.insert(to, item);
    }
}

impl Column {
    fn move_cell(&mut self, from: usize, to: usize)
        requires
            to <= from < old(self).cells@.len(),
        ensures
            final(self).name == old(self).name,
            final(self).cells@ == moved(old(self).cells@, from as int, to as int),
    {
        move_item(&mut self.cells, from, to);
    }
}

impl IndexedBucketInner {
    /// Moves one row forward, in all columns.
    fn move_row(&mut self, from: usize, to: usize)
        requires
            old(self).aligned(),
            to <= from < old(self).col_row_id@.len(),
        ensures
            final(self).aligned(),
            final(self).stored_rows() == moved(old(self).stored_rows(), from as int, to as int),
            final(self).column_names() == old(self).column_names(),
            final(self).is_sorted == old(self).is_sorted,
            final(self).time_range == old(self).time_range,
            final(self).max_row_id == old(self).max_row_id,
            final(self).size_bytes == old(self).size_bytes,
            final(self).store_insert_ids == old(self).store_insert_ids,
    {
        move_item(&mut self.col_time, from, to);
        move_item(&mut self.col_row_id, from, to);
        if self.store_insert_ids {
            move_item(&mut self.col_insert_id, from, to);
        }
        let ghost before = self.columns@;
        let n: usize = self.columns.len();
        let mut k: usize = 0;
        while k < n
            invariant
                n == self.columns@.len(),
                n == before.len(),
                k <= n,
                before == old(self).columns@,
                old(self).aligned(),
                to <= from < old(self).col_row_id@.len(),
                self.col_time@ == moved(old(self).col_time@, from as int, to as int),
                self.col_row_id@ == moved(old(self).col_row_id@, from as int, to as int),
                self.col_insert_id@ == if self.store_insert_ids {
                    moved(old(self).col_insert_id@, from as int, to as int)
                } else {
                    old(self).col_insert_id@
                },
                self.is_sorted == old(self).is_sorted,
                self.time_range == old(self).time_range,
                self.max_row_id == old(self).max_row_id,
                self.size_bytes == old(self).size_bytes,
                self.store_insert_ids == old(self).store_insert_ids,
                forall|c: int|
                    #![trigger self.columns@[c]]
                    0 <= c < n ==> self.columns@[c].name == before[c].name
                        && self.columns@[c].cells@ == if c < k {
                        moved(before[c].cells@, from as int, to as int)
                    } else {
                        before[c].cells@
                    },
            decreases n - k,
        {
            assert(before[k as int].cells@.len() == old(self).col_row_id@.len());
            self.columns[k].move_cell(from, to);
            k += 1;
        }
        proof {
            assert forall|c: int| 0 <= c < self.columns@.len() implies (
            #[trigger] self.columns@[c]).cells@.len() == self.col_row_id@.len() by {
                assert(before[c].cells@.len() == old(self).col_row_id@.len());
            }
            let expect = moved(old(self).stored_rows(), from as int, to as int);
            assert(self.stored_rows().len() == expect.len());
            assert forall|i: int| 0 <= i < expect.len() implies #[trigger] self.stored_rows()[i]
                == expect[i] by {
                let j = if i < to {
                    i
                } else if i == to {
                    from as int
                } else if i <= from {
                    i - 1
                } else {
                    i
                };
                assert(expect[i] == old(self).stored_rows()[j]);
                assert(self.col_time@[i] == old(self).col_time@[j]);
                assert forall|c: int| 0 <= c < self.columns@.len() implies #[trigger] self.columns@[c].cells@[i]
                    == before[c].cells@[j] by {
                    assert(before[c].cells@.len() == old(self).col_row_id@.len());
                }
                assert(self.stored_rows()[i].cells =~= expect[i].cells);
            }
            assert(self.stored_rows() =~= expect);
            assert(self.column_names() =~= old(self).column_names());
        }
    }

    /// Whether the row at one position comes before that at another.
    fn stored_before(&self, i: usize, j: usize) -> (r: bool)
        requires
            self.aligned(),
            i < self.col_row_id@.len(),
            j < self.col_row_id@.len(),
        ensures
            r == row_before(self.stored_rows()[i as int], self.stored_rows()[j as int]),
    {
        let (a, b) = (self.col_time[i], self.col_time[j]);
        a < b || (a == b && self.col_row_id[i].bits < self.col_row_id[j].bits)
    }

    /// Puts the rows in the order of time and row id, unless they already lie in it.
    pub fn sort(&mut self)
        requires
            old(self).wf(),
        ensures
            final(self).wf(),
            final(self)@ == old(self)@,
            final(self).is_sorted,
            final(self).stored_rows() == old(self)@.rows,
            final(self).size_bytes == old(self).size_bytes,
            final(self).store_insert_ids == old(self).store_insert_ids,
    {
        proof {
            reveal(IndexedBucketInner::wf);
        }
        let ghost start = self.stored_rows();
        proof {
            lemma_ordered(start);
        }
        if self.is_sorted {
            proof {
                lemma_ordered_sorted(start);
            }
            return;
        }
        let n: usize = self.col_row_id.len();
        let mut i: usize = 0;
        while i < n
            invariant
                i <= n,
                n == start.len(),
                start == old(self).stored_rows(),
                row_ids_distinct(start),
                self.aligned(),
                self.col_row_id@.len() == n,
                self.stored_rows() == ordered(start.take(i as int)) + start.skip(i as int),
                self.column_names() == old(self).column_names(),
                self.is_sorted == old(self).is_sorted,
                self.time_range == old(self).time_range,
                self.max_row_id == old(self).max_row_id,
                self.size_bytes == old(self).size_bytes,
                self.store_insert_ids == old(self).store_insert_ids,
            decreases n - i,
        {
            let ghost done = ordered(start.take(i as int));
            let ghost row = start[i as int];
            proof {
                lemma_distinct_prefix(start, i as int);
                lemma_ordered(start.take(i as int));
                lemma_distinct_prefix(start, i + 1);
                assert(start.skip(i as int)[0] == row);
                assert(start.take(i + 1).drop_last() =~= start.take(i as int));
            }
            let mut at: usize = i;
            while at > 0 && !self.stored_before(at - 1, i)
                invariant
                    at <= i,
                    i < n,
                    self.aligned(),
                    self.col_row_id@.len() == n,
                    self.stored_rows() == done + start.skip(i as int),
                    done.len() == i,
                    start.len() == n,
                    row == start[i as int],
                    forall|j: int| at <= j < i ==> !row_before(#[trigger] done[j], row),
                decreases at,
            {
                assert(self.stored_rows()[i as int] == row);
                assert(self.stored_rows()[at - 1] == done[at - 1]);
                at -= 1;
            }
            assert(self.stored_rows()[i as int] == row);
            proof {
                if at > 0 {
                    assert(self.stored_rows()[at - 1] == done[at - 1]);
                }
                lemma_insert_sorted_at(done, row, at as int);
            }
            self.move_row(i, at);
            i += 1;
            proof {
                assert(self.stored_rows() =~= done.insert(at as int, row) + start.skip(
                    i as int,
                ));
            }
        }
        self.is_sorted = true;
        proof {
            assert(start.take(n as int) =~= start);
            assert(self.stored_rows() =~= ordered(start));
            lemma_ordered_sorted(ordered(start));
            assert(self@ =~= old(self)@);
            assert(row_ids_distinct(self.stored_rows())) by {
                assert(old(self)@.valid());
            }
        }
    }
}

proof fn lemma_distinct_prefix(rows: Seq<BucketRow>, n: int)
    requires
        row_ids_distinct(rows),
        0 <= n <= rows.len(),
    ensures
        row_ids_distinct(rows.take(n)),
{
    let out = rows.take(n);
    assert forall|i: int, j: int|
        #![trigger out[i], out[j]]
        0 <= i < j < out.len() implies out[i].row_id != out[j].row_id by {
        assert(rows[i].row_id != rows[j].row_id);
    }
}

// --- Dropping a row.

proof fn lemma_swap_removed<T>(items: Seq<T>, index: int)
    requires
        0 <= index < items.len(),
    ensures
        swap_removed(items, index).len() == items.len() - 1,
        forall|i: int|
            0 <= i < items.len() - 1 ==> {
                let j = swap_source(items.len() as int, index, i);
                0 <= j < items.len() && j != index && #[trigger] swap_removed(items, index)[i]
                    == items[j]
            },
{
}

/// Which element is at position `i` once the one at `index` was taken out by [`swap_remove`].
pub open spec fn swap_source(len: int, index: int, i: int) -> int {
    if index == 0 {
        i + 1
    } else if index + 1 == len {
        i
    } else if index < len / 2 {
        if i + 1 == index {
            0
        } else {
            i + 1
        }
    } else {
        if i == index {
            len - 1
        } else {
            i
        }
    }
}

/// Taking out one row by [`swap_remove`] leaves all the others.
proof fn lemma_swap_removed_rows(rows: Seq<BucketRow>, index: int)
    requires
        0 <= index < rows.len(),
        row_ids_distinct(rows),
    ensures
        row_ids_distinct(swap_removed(rows, index)),
        forall|x: BucketRow|
            #![trigger swap_removed(rows, index).contains(x)]
            #![trigger rows.contains(x)]
            swap_removed(rows, index).contains(x) <==> (rows.contains(x) && x != rows[index]),
{
    let out = swap_removed(rows, index);
    let n = rows.len() as int;
    lemma_swap_removed(rows, index);
    assert forall|i: int, j: int|
        #![trigger out[i], out[j]]
        0 <= i < j < out.len() implies out[i].row_id != out[j].row_id by {
        let a = swap_source(n, index, i);
        let b = swap_source(n, index, j);
        assert(a != b);
        if a < b {
            assert(rows[a].row_id != rows[b].row_id);
        } else {
            assert(rows[b].row_id != rows[a].row_id);
        }
    }
    assert forall|x: BucketRow|
        #![trigger out.contains(x)]
        #![trigger rows.contains(x)]
        out.contains(x) <==> (rows.contains(x) && x != rows[index]) by {
        if out.contains(x) {
            let i = out.index_of(x);
            let a = swap_source(n, index, i);
            assert(rows[a] == x);
            if a < index {
                assert(rows[a].row_id != rows[index].row_id);
            } else {
                assert(rows[index].row_id != rows[a].row_id);
            }
        }
        if rows.contains(x) && x != rows[index] {
            let a = rows.index_of(x);
            let i = if index == 0 {
                a - 1
            } else if index + 1 == n {
                a
            } else if index < n / 2 {
                if a == 0 {
                    index - 1
                } else {
                    a - 1
                }
            } else {
                if a == n - 1 {
                    index
                } else {
                    a
                }
            };
            assert(0 <= i < out.len());
            assert(swap_source(n, index, i) == a);
            assert(out[i] == x);
        }
    }
}

pub proof fn lemma_remove_contains(rows: Seq<BucketRow>, at: int)
    requires
        0 <= at < rows.len(),
        row_ids_distinct(rows),
    ensures
        row_ids_distinct(rows.remove(at)),
        forall|x: BucketRow|
            #![trigger rows.remove(at).contains(x)]
            #![trigger rows.contains(x)]
            rows.remove(at).contains(x) <==> (rows.contains(x) && x != rows[at]),
{
    let out = rows.remove(at);
    assert forall|i: int, j: int|
        #![trigger out[i], out[j]]
        0 <= i < j < out.len() implies out[i].row_id != out[j].row_id by {
        let a = if i < at {
            i
        } else {
            i + 1
        };
        let b = if j < at {
            j
        } else {
            j + 1
        };
        assert(rows[a].row_id != rows[b].row_id);
    }
    assert forall|x: BucketRow|
        #![trigger out.contains(x)]
        #![trigger rows.contains(x)]
        out.contains(x) <==> (rows.contains(x) && x != rows[at]) by {
        if out.contains(x) {
            let i = out.index_of(x);
            let a = if i < at {
                i
            } else {
                i + 1
            };
            assert(rows[a] == x);
            if a < at {
                assert(rows[a].row_id != rows[at].row_id);
            } else {
                assert(rows[at].row_id != rows[a].row_id);
            }
        }
        if rows.contains(x) && x != rows[at] {
            let a = rows.index_of(x);
            let i = if a < at {
                a
            } else {
                a - 1
            };
            assert(out[i] == x);
        }
    }
}

pub proof fn lemma_rows_size_remove(rows: Seq<BucketRow>, at: int)
    requires
        0 <= at < rows.len(),
    ensures
        rows_size(rows.remove(at)) == rows_size(rows) - row_size(rows[at]),
    decreases rows.len(),
{
    let init = rows.drop_last();
    if at < rows.len() - 1 {
        lemma_rows_size_remove(init, at);
        assert(rows.remove(at).drop_last() =~= init.remove(at));
        assert(rows.remove(at).last() == rows.last());
    } else {
        assert(rows.remove(at) =~= init);
    }
}

pub proof fn lemma_cells_size_nonneg(cells: Seq<Option<DataCell>>)
    ensures
        cells_size(cells) >= 0,
    decreases cells.len(),
{
    if cells.len() > 0 {
        lemma_cells_size_nonneg(cells.drop_last());
    }
}

pub proof fn lemma_row_size_positive(row: BucketRow)
    ensures
        row_size(row) >= ROW_ID_BYTES + TIME_BYTES,
{
    lemma_cells_size_nonneg(row.cells);
}

pub proof fn lemma_rows_size_nonneg(rows: Seq<BucketRow>)
    ensures
        rows_size(rows) >= 0,
    decreases rows.len(),
{
    if rows.len() > 0 {
        lemma_rows_size_nonneg(rows.drop_last());
        lemma_row_size_positive(rows.last());
    }
}

/// One row takes up no more than all of them.
pub proof fn lemma_row_size_bound(rows: Seq<BucketRow>, at: int)
    requires
        0 <= at < rows.len(),
    ensures
        0 < row_size(rows[at]) <= rows_size(rows),
{
    lemma_rows_size_remove(rows, at);
    lemma_rows_size_nonneg(rows.remove(at));
    lemma_row_size_positive(rows[at]);
}

proof fn lemma_cells_size_prefix(cells: Seq<Option<DataCell>>, n: int)
    requires
        0 <= n <= cells.len(),
    ensures
        cells_size(cells.take(n)) <= cells_size(cells),
    decreases cells.len() - n,
{
    if n < cells.len() {
        lemma_cells_size_prefix(cells, n + 1);
        assert(cells.take(n + 1).drop_last() =~= cells.take(n));
    } else {
        assert(cells.take(n) =~= cells);
    }
}

impl Column {
    fn take_cell(&mut self, index: usize) -> (r: Option<DataCell>)
        requires
            index < old(self).cells@.len(),
        ensures
            final(self).name == old(self).name,
            final(self).cells@ == swap_removed(old(self).cells@, index as int),
            r == old(self).cells@[index as int],
    {
        match swap_remove(&mut self.cells, index) {
            Some(cell) => cell,
            None => None,
        }
    }
}

/// A row that is being taken out of a bucket.
struct TakenRow {
    cells: Vec<DataCell>,
    num_bytes: u64,
}

impl IndexedBucketInner {
    /// Takes out one row, in all columns.
    fn take_row(&mut self, index: usize) -> (r: TakenRow)
        requires
            old(self).aligned(),
            index < old(self).col_row_id@.len(),
            row_size(old(self).stored_rows()[index as int]) <= u64::MAX,
        ensures
            final(self).aligned(),
            final(self).stored_rows() == swap_removed(old(self).stored_rows(), index as int),
            final(self).column_names() == old(self).column_names(),
            final(self).is_sorted == old(self).is_sorted,
            final(self).time_range == old(self).time_range,
            final(self).max_row_id == old(self).max_row_id,
            final(self).size_bytes == old(self).size_bytes,
            final(self).store_insert_ids == old(self).store_insert_ids,
            r.cells@ == present(old(self).stored_rows()[index as int].cells),
            r.num_bytes == row_size(old(self).stored_rows()[index as int]),
    {
        let ghost row = self.stored_rows()[index as int];
        proof {
            lemma_cells_size_nonneg(row.cells);
            lemma_swap_removed(self.col_row_id@, index as int);
            lemma_swap_removed(self.col_time@, index as int);
        }
        let mut cells: Vec<DataCell> = Vec::new();
        let mut num_bytes: u64 = ROW_ID_BYTES + TIME_BYTES;
        swap_remove(&mut self.col_row_id, index);
        swap_remove(&mut self.col_time, index);
        if self.store_insert_ids {
            proof {
                lemma_swap_removed(self.col_insert_id@, index as int);
            }
            swap_remove(&mut self.col_insert_id, index);
            num_bytes += INSERT_ID_BYTES;
        }
        let ghost before = self.columns@;
        let ghost base = num_bytes as int;
        let n: usize = self.columns.len();
        let mut k: usize = 0;
        while k < n
            invariant
                n == self.columns@.len(),
                n == before.len(),
                k <= n,
                before == old(self).columns@,
                old(self).aligned(),
                index < old(self).col_row_id@.len(),
                row == old(self).stored_rows()[index as int],
                row_size(row) <= u64::MAX,
                row_size(row) == base + cells_size(row.cells),
                num_bytes == base + cells_size(row.cells.take(k as int)),
                cells@ == present(row.cells.take(k as int)),
                self.col_time@ == swap_removed(old(self).col_time@, index as int),
                self.col_row_id@ == swap_removed(old(self).col_row_id@, index as int),
                self.col_insert_id@ == if self.store_insert_ids {
                    swap_removed(old(self).col_insert_id@, index as int)
                } else {
                    old(self).col_insert_id@
                },
                self.is_sorted == old(self).is_sorted,
                self.time_range == old(self).time_range,
                self.max_row_id == old(self).max_row_id,
                self.size_bytes == old(self).size_bytes,
                self.store_insert_ids == old(self).store_insert_ids,
                forall|c: int|
                    #![trigger self.columns@[c]]
                    0 <= c < n ==> self.columns@[c].name == before[c].name
                        && self.columns@[c].cells@ == if c < k {
                        swap_removed(before[c].cells@, index as int)
                    } else {
                        before[c].cells@
                    },
            decreases n - k,
        {
            assert(before[k as int].cells@.len() == old(self).col_row_id@.len());
            assert(self.columns@[k as int].cells@ == before[k as int].cells@);
            let cell = self.columns[k].take_cell(index);
            proof {
                assert(row.cells[k as int] == cell);
                assert(row.cells.take(k + 1).drop_last() =~= row.cells.take(k as int));
                assert(row.cells.take(k + 1).last() == cell);
                lemma_cells_size_prefix(row.cells, k + 1);
            }
            num_bytes += CELL_SLOT_BYTES;
            if let Some(cell) = cell {
                num_bytes += cell.size_bytes;
                cells.push(cell);
            }
            k += 1;
        }
        proof {
            assert(row.cells.take(n as int) =~= row.cells);
            assert forall|c: int| 0 <= c < self.columns@.len() implies (
            #[trigger] self.columns@[c]).cells@.len() == self.col_row_id@.len() by {
                assert(before[c].cells@.len() == old(self).col_row_id@.len());
                lemma_swap_removed(before[c].cells@, index as int);
            }
            let stored = old(self).stored_rows();
            let expect = swap_removed(stored, index as int);
            lemma_swap_removed(stored, index as int);
            lemma_swap_removed(old(self).col_time@, index as int);
            lemma_swap_removed(old(self).col_row_id@, index as int);
            if self.store_insert_ids {
                lemma_swap_removed(old(self).col_insert_id@, index as int);
            }
            assert forall|i: int| 0 <= i < expect.len() implies #[trigger] self.stored_rows()[i]
                == expect[i] by {
                let j = swap_source(stored.len() as int, index as int, i);
                assert(expect[i] == stored[j]);
                assert(swap_removed(old(self).col_time@, index as int)[i]
                    == old(self).col_time@[j]);
                assert(swap_removed(old(self).col_row_id@, index as int)[i]
                    == old(self).col_row_id@[j]);
                if self.store_insert_ids {
                    assert(swap_removed(old(self).col_insert_id@, index as int)[i]
                        == old(self).col_insert_id@[j]);
                }
                assert forall|c: int| 0 <= c < self.columns@.len() implies #[trigger] self.columns@[c].cells@[i]
                    == before[c].cells@[j] by {
                    assert(before[c].cells@.len() == old(self).col_row_id@.len());
                    lemma_swap_removed(before[c].cells@, index as int);
                    assert(swap_removed(before[c].cells@, index as int)[i]
                        == before[c].cells@[j]);
                }
                assert(self.stored_rows()[i].cells =~= expect[i].cells);
            }
            assert(self.stored_rows() =~= expect);
            assert(self.column_names() =~= old(self).column_names());
        }
        TakenRow { cells, num_bytes }
    }
}

proof fn lemma_row_index_unique(rows: Seq<BucketRow>, i: int)
    requires
        row_ids_distinct(rows),
        0 <= i < rows.len(),
    ensures
        row_index(rows, rows[i].row_id, rows[i].time) == Some(i),
{
    let (row_id, time) = (rows[i].row_id, rows[i].time);
    let j = choose|j: int|
        0 <= j < rows.len() && (#[trigger] rows[j]).row_id == row_id && rows[j].time == time;
    assert(rows[i].row_id == row_id && rows[i].time == time);
    if j < i {
        assert(rows[j].row_id != rows[i].row_id);
    } else if i < j {
        assert(rows[i].row_id != rows[j].row_id);
    }
}

/// Taking a row out of a valid bucket leaves a valid bucket.
pub proof fn lemma_bucket_without_valid(bucket: BucketView, at: int)
    requires
        bucket.valid(),
        0 <= at < bucket.rows.len(),
    ensures
        bucket_without(bucket, at).valid(),
        bucket_without(bucket, at).size() == bucket.size() - row_size(bucket.rows[at]),
{
    let out = bucket_without(bucket, at);
    lemma_remove_sorted(bucket.rows, at);
    lemma_remove_contains(bucket.rows, at);
    lemma_rows_size_remove(bucket.rows, at);
    assert forall|i: int| 0 <= i < out.rows.len() implies {
        &&& (#[trigger] out.rows[i]).cells.len() == out.columns.len()
        &&& out.rows[i].time >= TIME_MIN
        &&& (out.rows[i].insert_id is Some) == out.store_insert_ids
    } by {
        let j = if i < at {
            i
        } else {
            i + 1
        };
        assert(out.rows[i] == bucket.rows[j]);
    }
    assert forall|i: int, k: int|
        #![trigger out.rows[i].cells[k]]
        0 <= i < out.rows.len() && 0 <= k < out.columns.len() && out.rows[i].cells[k] is Some implies out.rows[i].cells[k]->0.component_name@
        == out.columns[k] by {
        let j = if i < at {
            i
        } else {
            i + 1
        };
        assert(out.rows[i] == bucket.rows[j]);
        assert(bucket.rows[j].cells[k] is Some);
    }
}

/// The largest row id of the rows as they lie in memory, or zero.
fn largest_row_id(ids: &VecDeque<RowId>) -> (r: RowId)
    ensures
        forall|i: int| 0 <= i < ids@.len() ==> (#[trigger] ids@[i]).bits <= r.bits,
        if ids@.len() == 0 {
            r.bits == 0
        } else {
            exists|i: int| 0 <= i < ids@.len() && #[trigger] ids@[i] == r
        },
{
    let mut max = RowId::zero();
    let mut i: usize = 0;
    while i < ids.len()
        invariant
            i <= ids@.len(),
            forall|j: int| 0 <= j < i ==> (#[trigger] ids@[j]).bits <= max.bits,
            if i == 0 {
                max.bits == 0
            } else {
                exists|j: int| 0 <= j < i && #[trigger] ids@[j] == max
            },
        decreases ids@.len() - i,
    {
        let id = ids[i];
        if i == 0 || id.bits > max.bits {
            max = id;
            assert(ids@[i as int] == max);
        }
        i += 1;
    }
    max
}

impl IndexedBucketInner {
    /// The first position at which the time is not before the given one.
    fn first_at_or_after(&self, time: i64) -> (r: usize)
        requires
            self.aligned(),
            rows_sorted(self.stored_rows()),
        ensures
            r <= self.col_time@.len(),
            forall|j: int| 0 <= j < r ==> #[trigger] self.col_time@[j] < time,
            forall|j: int| r <= j < self.col_time@.len() ==> #[trigger] self.col_time@[j] >= time,
    {
        let mut low: usize = 0;
        let mut high: usize = self.col_time.len();
        proof {
            assert forall|i: int, j: int|
                #![trigger self.col_time@[i], self.col_time@[j]]
                0 <= i < j < self.col_time@.len() implies self.col_time@[i]
                <= self.col_time@[j] by {
                assert(row_before(self.stored_rows()[i], self.stored_rows()[j]));
            }
        }
        while low < high
            invariant
                low <= high <= self.col_time@.len(),
                forall|i: int, j: int|
                    #![trigger self.col_time@[i], self.col_time@[j]]
                    0 <= i < j < self.col_time@.len() ==> self.col_time@[i] <= self.col_time@[j],
                forall|j: int| 0 <= j < low ==> #[trigger] self.col_time@[j] < time,
                forall|j: int|
                    high <= j < self.col_time@.len() ==> #[trigger] self.col_time@[j] >= time,
            decreases high - low,
        {
            let mid: usize = low + (high - low) / 2;
            if self.col_time[mid] < time {
                low = mid + 1;
            } else {
                high = mid;
            }
        }
        low
    }

    /// Drops the row at a position, and keeps the books.
    fn drop_row_at(&mut self, index: usize) -> (r: TakenRow)
        requires
            old(self).wf(),
            old(self).is_sorted,
            index < old(self).col_row_id@.len(),
        ensures
            final(self).wf(),
            final(self).store_insert_ids == old(self).store_insert_ids,
            index < old(self)@.rows.len(),
            final(self)@ == bucket_without(old(self)@, index as int),
            r.cells@ == present(old(self)@.rows[index as int].cells),
            r.num_bytes == row_size(old(self)@.rows[index as int]),
    {
        proof {
            reveal(IndexedBucketInner::wf);
        }
        let ghost rows = self.stored_rows();
        let ghost view = self@;
        let n: usize = self.col_time.len();
        let row_id = self.col_row_id[index];
        proof {
            lemma_ordered_sorted(rows);
            lemma_row_size_bound(rows, index as int);
            lemma_swap_removed_rows(rows, index as int);
            lemma_remove_contains(rows, index as int);
            lemma_remove_sorted(rows, index as int);
            lemma_bucket_without_valid(view, index as int);
            assert(rows[index as int].row_id == row_id);
        }
        let ghost left = rows.remove(index as int);
        if n == 1 {
            // The last row leaves.
            self.time_range = ResolvedTimeRange::empty();
        } else {
            self.is_sorted = index == 0 || index + 1 == n;
            if index == 0 {
                // The second row holds the new minimum.
                let first: i64 = self.col_time[1];
                self.time_range.min = TimeInt::new_temporal(first);
                assert(rows[1].time == first);
                assert(left[0] == rows[1]);
            } else {
                assert(left[0] == rows[0]);
            }
            if index + 1 == n {
                // The penultimate row holds the new maximum.
                let last: i64 = self.col_time[index - 1];
                self.time_range.max = TimeInt::new_temporal(last);
                assert(rows[index - 1].time == last);
                assert(left.last() == rows[index - 1]);
            } else {
                assert(left.last() == rows.last());
            }
        }
        let ghost old_max = self.max_row_id;
        let taken = self.take_row(index);
        if self.max_row_id.bits == row_id.bits {
            // The rows are sorted by time first: the largest id that is left can be anywhere.
            self.max_row_id = largest_row_id(&self.col_row_id);
        }
        self.size_bytes = self.size_bytes - taken.num_bytes;
        proof {
            let stored = self.stored_rows();
            lemma_ordered(stored);
            lemma_sorted_unique(ordered(stored), left);
            assert(self@ =~= bucket_without(view, index as int));
            if self.is_sorted {
                assert(stored =~= left);
            }
            if old_max == row_id {
                lemma_max_of_stored(stored, self.col_row_id@, left, self.max_row_id);
            } else {
                lemma_max_kept(rows, index as int, old_max);
            }
        }
        taken
    }

    /// Tries to drop the row with this id, which is expected to be found at the given time.
    ///
    /// Returns what was dropped and how many bytes it took up: nothing and zero if the row is not
    /// there.
    pub fn try_drop_row(
        &mut self,
        row_id: RowId,
        timeline: Timeline,
        entity_path: &EntityPath,
        time: TimeInt,
    ) -> (r: (Option<StoreDiff>, u64))
        requires
            old(self).wf(),
        ensures
            final(self).wf(),
            final(self).store_insert_ids == old(self).store_insert_ids,
            match row_index(old(self)@.rows, row_id, time.value) {
                Some(i) => {
                    let row = old(self)@.rows[i];
                    &&& 0 <= i < old(self)@.rows.len()
                    &&& row.row_id == row_id && row.time == time.value
                    &&& final(self)@ == bucket_without(old(self)@, i)
                    &&& opt_diff(r.0) == dropped_row_diff(row, timeline, time, *entity_path)
                    &&& r.1 == row_size(row)
                },
                None => final(self)@ == old(self)@ && r.0 is None && r.1 == 0,
            },
    {
        proof {
            reveal(IndexedBucketInner::wf);
        }
        self.sort();
        let ghost rows = self.stored_rows();
        let n: usize = self.col_time.len();
        let mut index: usize = self.first_at_or_after(time.value);
        while index < n && self.col_time[index] == time.value && self.col_row_id[index].bits
            != row_id.bits
            invariant
                index <= n,
                n == self.col_time@.len(),
                self.aligned(),
                self.stored_rows() == rows,
                forall|j: int|
                    0 <= j < index ==> (#[trigger] rows[j]).row_id != row_id || rows[j].time
                        != time.value,
                forall|j: int| index <= j < n ==> #[trigger] self.col_time@[j] >= time.value,
            decreases n - index,
        {
            assert(rows[index as int].row_id != row_id);
            index += 1;
        }
        if index >= n || self.col_time[index] != time.value {
            proof {
                assert forall|j: int| 0 <= j < rows.len() implies (#[trigger] rows[j]).row_id
                    != row_id || rows[j].time != time.value by {
                    if j > index {
                        assert(self.col_time@[index as int] > time.value);
                        assert(row_before(rows[index as int], rows[j]));
                    }
                }
            }
            return (None, 0);
        }
        proof {
            assert(rows[index as int].row_id == row_id);
            assert(rows[index as int].time == time.value);
            lemma_row_index_unique(rows, index as int);
        }
        let taken = self.drop_row_at(index);
        if taken.cells.len() == 0 {
            return (None, taken.num_bytes);
        }
        let mut diff = StoreDiff::deletion(row_id, clone_path(entity_path));
        diff.at_timestamp(timeline, time);
        diff.cells = taken.cells;
        assert(diff@.times =~= seq![(timeline, time)]);
        (Some(diff), taken.num_bytes)
    }
}

proof fn lemma_max_of_stored(
    stored: Seq<BucketRow>,
    ids: Seq<RowId>,
    rows: Seq<BucketRow>,
    max: RowId,
)
    requires
        stored.len() == ids.len(),
        forall|i: int| 0 <= i < ids.len() ==> (#[trigger] stored[i]).row_id == ids[i],
        forall|i: int| 0 <= i < ids.len() ==> (#[trigger] ids[i]).bits <= max.bits,
        if ids.len() == 0 {
            max.bits == 0
        } else {
            exists|i: int| 0 <= i < ids.len() && #[trigger] ids[i] == max
        },
        forall|x: BucketRow|
            #![trigger stored.contains(x)]
            #![trigger rows.contains(x)]
            stored.contains(x) <==> rows.contains(x),
    ensures
        is_max_row_id(rows, max),
{
    assert forall|i: int| 0 <= i < rows.len() implies (#[trigger] rows[i]).row_id.bits
        <= max.bits by {
        assert(rows.contains(rows[i]));
        let j = stored.index_of(rows[i]);
        assert(ids[j] == stored[j].row_id);
    }
    if ids.len() > 0 {
        let i = choose|i: int| 0 <= i < ids.len() && #[trigger] ids[i] == max;
        assert(stored[i].row_id == max);
        assert(stored.contains(stored[i]));
        let m = rows.index_of(stored[i]);
        assert(rows[m].row_id == max);
    } else if rows.len() > 0 {
        assert(rows.contains(rows[0]));
        assert(stored.contains(rows[0]));
    }
}

proof fn lemma_max_kept(rows: Seq<BucketRow>, at: int, max: RowId)
    requires
        0 <= at < rows.len(),
        is_max_row_id(rows, max),
        rows[at].row_id != max,
    ensures
        is_max_row_id(rows.remove(at), max),
{
    let left = rows.remove(at);
    assert forall|i: int| 0 <= i < left.len() implies (#[trigger] left[i]).row_id.bits
        <= max.bits by {
        assert(left[i] == rows[if i < at {
            i
        } else {
            i + 1
        }]);
    }
    let j = choose|j: int| 0 <= j < rows.len() && (#[trigger] rows[j]).row_id == max;
    let m = if j < at {
        j
    } else {
        j - 1
    };
    assert(left[m].row_id == max);
}

// --- Adding a row.

/// The cell of a component, if there is one.
pub open spec fn cell_of(cells: Seq<DataCell>, component: Seq<char>) -> Option<DataCell>
    decreases cells.len(),
{
    if cells.len() == 0 {
        None
    } else if cells[0].component_name@ == component {
        Some(cells[0])
    } else {
        cell_of(cells.skip(1), component)
    }
}

pub proof fn lemma_cell_of_found(cells: Seq<DataCell>, component: Seq<char>, i: int)
    requires
        0 <= i < cells.len(),
        cells[i].component_name@ == component,
        forall|j: int| 0 <= j < i ==> (#[trigger] cells[j]).component_name@ != component,
    ensures
        cell_of(cells, component) == Some(cells[i]),
    decreases i,
{
    if i > 0 {
        let rest = cells.skip(1);
        assert(cells[0].component_name@ != component);
        assert(rest[i - 1] == cells[i]);
        assert forall|j: int| 0 <= j < i - 1 implies (#[trigger] rest[j]).component_name@
            != component by {
            assert(cells[j + 1].component_name@ != component);
        }
        lemma_cell_of_found(rest, component, i - 1);
    }
}

pub proof fn lemma_cell_of_missing(cells: Seq<DataCell>, component: Seq<char>)
    requires
        !has_component(cells, component),
    ensures
        cell_of(cells, component) is None,
    decreases cells.len(),
{
    if cells.len() > 0 {
        assert(cells[0].component_name@ != component);
        let rest = cells.skip(1);
        assert forall|j: int| 0 <= j < rest.len() implies (#[trigger] rest[j]).component_name@
            != component by {
            assert(cells[j + 1].component_name@ != component);
        }
        lemma_cell_of_missing(rest, component);
    }
}

/// A copy of the cell of a component, if there is one.
pub fn find_cell(cells: &Vec<DataCell>, component: &ComponentName) -> (r: Option<DataCell>)
    ensures
        r == cell_of(cells@, component@),
        r matches Some(cell) ==> cell.component_name@ == component@,
{
    match find_component(cells, component) {
        Some(i) => {
            proof {
                lemma_cell_of_found(cells@, component@, i as int);
            }
            Some(cells[i].clone())
        },
        None => {
            proof {
                lemma_cell_of_missing(cells@, component@);
            }
            None
        },
    }
}

/// The columns once there is one for each of the cells.
pub open spec fn with_columns(columns: Seq<Seq<char>>, cells: Seq<DataCell>) -> Seq<Seq<char>>
    decreases cells.len(),
{
    if cells.len() == 0 {
        columns
    } else {
        let rest = with_columns(columns, cells.drop_last());
        let name = cells.last().component_name@;
        if rest.contains(name) {
            rest
        } else {
            rest.push(name)
        }
    }
}

/// Rows with empty slots added for new columns.
pub open spec fn widened(rows: Seq<BucketRow>, added: nat) -> Seq<BucketRow> {
    Seq::new(rows.len(), |i: int| widened_row(rows[i], added))
}

pub open spec fn widened_row(row: BucketRow, added: nat) -> BucketRow {
    BucketRow { cells: row.cells + Seq::new(added, |k: int| None), ..row }
}

/// The row that cells make up in a bucket with the given columns.
pub open spec fn new_bucket_row(
    columns: Seq<Seq<char>>,
    time: i64,
    row_id: RowId,
    insert_id: Option<u64>,
    cells: Seq<DataCell>,
) -> BucketRow {
    BucketRow {
        time,
        row_id,
        insert_id,
        cells: Seq::new(columns.len(), |k: int| cell_of(cells, columns[k])),
    }
}

/// A bucket with a row added to it.
pub open spec fn bucket_with(
    bucket: BucketView,
    time: i64,
    row_id: RowId,
    insert_id: u64,
    cells: Seq<DataCell>,
) -> BucketView {
    let columns = with_columns(bucket.columns, cells);
    let row = new_bucket_row(
        columns,
        time,
        row_id,
        if bucket.store_insert_ids {
            Some(insert_id)
        } else {
            None
        },
        cells,
    );
    BucketView {
        columns,
        rows: insert_sorted(
            widened(bucket.rows, (columns.len() - bucket.columns.len()) as nat),
            row,
        ),
        ..bucket
    }
}

pub proof fn lemma_with_columns(columns: Seq<Seq<char>>, cells: Seq<DataCell>)
    requires
        names_distinct(columns),
    ensures
        names_distinct(with_columns(columns, cells)),
        with_columns(columns, cells).len() >= columns.len(),
        with_columns(columns, cells).take(columns.len() as int) == columns,
    decreases cells.len(),
{
    if cells.len() == 0 {
        assert(columns.take(columns.len() as int) =~= columns);
    } else {
        lemma_with_columns(columns, cells.drop_last());
        let rest = with_columns(columns, cells.drop_last());
        let name = cells.last().component_name@;
        if !rest.contains(name) {
            let out = rest.push(name);
            assert forall|i: int, j: int|
                #![trigger out[i], out[j]]
                0 <= i < j < out.len() implies out[i] != out[j] by {
                if j == rest.len() {
                    assert(rest.contains(rest[i]));
                } else {
                    assert(rest[i] != rest[j]);
                }
            }
            assert(out.take(columns.len() as int) =~= rest.take(columns.len() as int));
        }
    }
}

proof fn lemma_insert_sorted_widened(rows: Seq<BucketRow>, row: BucketRow, added: nat)
    ensures
        widened(insert_sorted(rows, row), added) == insert_sorted(
            widened(rows, added),
            widened_row(row, added),
        ),
    decreases rows.len(),
{
    let wide = widened(rows, added);
    if rows.len() == 0 || row_before(rows.last(), row) {
        assert(widened(rows.push(row), added) =~= wide.push(widened_row(row, added)));
    } else {
        lemma_insert_sorted_widened(rows.drop_last(), row, added);
        assert(wide.drop_last() =~= widened(rows.drop_last(), added));
        assert(widened(insert_sorted(rows, row), added) =~= insert_sorted(
            wide,
            widened_row(row, added),
        ));
    }
}

proof fn lemma_ordered_widened(rows: Seq<BucketRow>, added: nat)
    ensures
        ordered(widened(rows, added)) == widened(ordered(rows), added),
    decreases rows.len(),
{
    if rows.len() == 0 {
        assert(widened(rows, added) =~= rows);
    } else {
        lemma_ordered_widened(rows.drop_last(), added);
        assert(widened(rows, added).drop_last() =~= widened(rows.drop_last(), added));
        lemma_insert_sorted_widened(ordered(rows.drop_last()), rows.last(), added);
    }
}

proof fn lemma_cells_size_widened(cells: Seq<Option<DataCell>>, added: nat)
    ensures
        cells_size(cells + Seq::new(added, |k: int| None::<DataCell>)) == cells_size(cells)
            + CELL_SLOT_BYTES * added,
    decreases added,
{
    let wide = cells + Seq::new(added, |k: int| None::<DataCell>);
    if added == 0 {
        assert(wide =~= cells);
    } else {
        let less = (added - 1) as nat;
        lemma_cells_size_widened(cells, less);
        assert(wide.drop_last() =~= cells + Seq::new(less, |k: int| None::<DataCell>));
        assert(wide.last() == None::<DataCell>);
    }
}

proof fn lemma_rows_size_widened(rows: Seq<BucketRow>, added: nat)
    ensures
        rows_size(widened(rows, added)) == rows_size(rows) + CELL_SLOT_BYTES * added * rows.len(),
    decreases rows.len(),
{
    let wide = widened(rows, added);
    if rows.len() > 0 {
        lemma_rows_size_widened(rows.drop_last(), added);
        assert(wide.drop_last() =~= widened(rows.drop_last(), added));
        lemma_cells_size_widened(rows.last().cells, added);
        assert(CELL_SLOT_BYTES * added * (rows.len() - 1) + CELL_SLOT_BYTES * added
            == CELL_SLOT_BYTES * added * rows.len()) by (nonlinear_arith)
            requires
                rows.len() > 0,
        ;
    }
}

proof fn lemma_rows_size_insert(rows: Seq<BucketRow>, row: BucketRow)
    ensures
        rows_size(insert_sorted(rows, row)) == rows_size(rows) + row_size(row),
    decreases rows.len(),
{
    if rows.len() == 0 || row_before(rows.last(), row) {
        assert(rows.push(row).drop_last() =~= rows);
    } else {
        lemma_rows_size_insert(rows.drop_last(), row);
        let rest = insert_sorted(rows.drop_last(), row);
        assert(rest.push(rows.last()).drop_last() =~= rest);
    }
}

/// What adding a row does to the size of a bucket.
pub proof fn lemma_bucket_with_size(
    bucket: BucketView,
    time: i64,
    row_id: RowId,
    insert_id: u64,
    cells: Seq<DataCell>,
)
    ensures
        ({
            let columns = with_columns(bucket.columns, cells);
            let added = (columns.len() - bucket.columns.len()) as nat;
            let row = new_bucket_row(
                columns,
                time,
                row_id,
                if bucket.store_insert_ids {
                    Some(insert_id)
                } else {
                    None
                },
                cells,
            );
            bucket_with(bucket, time, row_id, insert_id, cells).size() == bucket.size()
                + CELL_SLOT_BYTES * added * bucket.rows.len() + row_size(row)
        }),
{
    let columns = with_columns(bucket.columns, cells);
    let added = (columns.len() - bucket.columns.len()) as nat;
    let row = new_bucket_row(
        columns,
        time,
        row_id,
        if bucket.store_insert_ids {
            Some(insert_id)
        } else {
            None
        },
        cells,
    );
    lemma_rows_size_widened(bucket.rows, added);
    lemma_rows_size_insert(widened(bucket.rows, added), row);
}

/// Adding a row to a valid bucket gives a valid bucket.
pub proof fn lemma_bucket_with_valid(
    bucket: BucketView,
    time: i64,
    row_id: RowId,
    insert_id: u64,
    cells: Seq<DataCell>,
)
    requires
        bucket.valid(),
        time >= TIME_MIN,
        forall|i: int| 0 <= i < bucket.rows.len() ==> (#[trigger] bucket.rows[i]).row_id != row_id,
    ensures
        bucket_with(bucket, time, row_id, insert_id, cells).valid(),
        bucket_with(bucket, time, row_id, insert_id, cells).rows.len() == bucket.rows.len() + 1,
        forall|x: BucketRow|
            bucket_with(bucket, time, row_id, insert_id, cells).rows.contains(x) ==> x.row_id
                == row_id && x.time == time || exists|i: int|
                0 <= i < bucket.rows.len() && (#[trigger] bucket.rows[i]).row_id == x.row_id
                    && bucket.rows[i].time == x.time,
{
    let out = bucket_with(bucket, time, row_id, insert_id, cells);
    let columns = out.columns;
    let added = (columns.len() - bucket.columns.len()) as nat;
    lemma_with_columns(bucket.columns, cells);
    let wide = widened(bucket.rows, added);
    let row = new_bucket_row(
        columns,
        time,
        row_id,
        if bucket.store_insert_ids {
            Some(insert_id)
        } else {
            None
        },
        cells,
    );
    assert(rows_sorted(wide)) by {
        assert forall|i: int, j: int|
            #![trigger wide[i], wide[j]]
            0 <= i < j < wide.len() implies row_before(wide[i], wide[j]) by {
            assert(row_before(bucket.rows[i], bucket.rows[j]));
        }
    }
    assert forall|j: int| 0 <= j < wide.len() implies (#[trigger] wide[j]).row_id
        != row.row_id by {
        assert(bucket.rows[j].row_id != row_id);
    }
    lemma_insert_sorted(wide, row);
    assert forall|x: BucketRow| #[trigger] out.rows.contains(x) implies x.row_id == row_id
        && x.time == time && x == row || exists|i: int|
        0 <= i < bucket.rows.len() && (#[trigger] bucket.rows[i]).row_id == x.row_id
            && bucket.rows[i].time == x.time && x == wide[i] by {
        if wide.contains(x) {
            let i = wide.index_of(x);
            assert(bucket.rows[i].row_id == x.row_id);
        }
    }
    assert(row_ids_distinct(out.rows)) by {
        assert forall|i: int, j: int|
            #![trigger out.rows[i], out.rows[j]]
            0 <= i < j < out.rows.len() implies out.rows[i].row_id != out.rows[j].row_id by {
            let (x, y) = (out.rows[i], out.rows[j]);
            assert(out.rows.contains(x));
            assert(out.rows.contains(y));
            assert(row_before(x, y));
            if x.row_id == y.row_id {
                if wide.contains(x) && wide.contains(y) {
                    let a = wide.index_of(x);
                    let b = wide.index_of(y);
                    if a < b {
                        assert(bucket.rows[a].row_id != bucket.rows[b].row_id);
                    } else if b < a {
                        assert(bucket.rows[b].row_id != bucket.rows[a].row_id);
                    }
                } else if wide.contains(x) {
                    assert(wide[wide.index_of(x)].row_id != row_id);
                } else if wide.contains(y) {
                    assert(wide[wide.index_of(y)].row_id != row_id);
                }
            }
        }
    }
    assert forall|i: int| 0 <= i < out.rows.len() implies {
        &&& (#[trigger] out.rows[i]).cells.len() == out.columns.len()
        &&& out.rows[i].time >= TIME_MIN
        &&& (out.rows[i].insert_id is Some) == out.store_insert_ids
    } by {
        let x = out.rows[i];
        assert(out.rows.contains(x));
        if wide.contains(x) {
            let a = wide.index_of(x);
            assert(bucket.rows[a].cells.len() == bucket.columns.len());
        }
    }
    assert forall|i: int, k: int|
        #![trigger out.rows[i].cells[k]]
        0 <= i < out.rows.len() && 0 <= k < out.columns.len() && out.rows[i].cells[k] is Some implies out.rows[i].cells[k]->0.component_name@
        == out.columns[k] by {
        let x = out.rows[i];
        assert(out.rows.contains(x));
        if wide.contains(x) {
            let a = wide.index_of(x);
            assert(bucket.rows[a].cells.len() == bucket.columns.len());
            if k < bucket.columns.len() {
                assert(bucket.rows[a].cells[k] is Some);
                assert(columns.take(bucket.columns.len() as int)[k] == columns[k]);
            }
        } else {
            lemma_cell_of_name(cells, columns[k]);
        }
    }
}

pub proof fn lemma_cell_of_name(cells: Seq<DataCell>, component: Seq<char>)
    ensures
        cell_of(cells, component) matches Some(cell) ==> cell.component_name@ == component,
    decreases cells.len(),
{
    if cells.len() > 0 {
        lemma_cell_of_name(cells.skip(1), component);
    }
}

impl Column {
    /// A column of empty slots.
    fn of_empty_slots(name: ComponentName, num_rows: usize) -> (r: Column)
        ensures
            r.name == name,
            r.cells@ == Seq::new(num_rows as nat, |i: int| None::<DataCell>),
    {
        let mut cells: VecDeque<Option<DataCell>> = VecDeque::new();
        let mut i: usize = 0;
        while i < num_rows
            invariant
                i <= num_rows,
                cells@ == Seq::new(i as nat, |i: int| None::<DataCell>),
            decreases num_rows - i,
        {
            cells.push_back(None);
            i += 1;
            assert(cells@ =~= Seq::new(i as nat, |i: int| None::<DataCell>));
        }
        Column { name, cells }
    }

    fn push_cell(&mut self, cell: Option<DataCell>)
        ensures
            final(self).name == old(self).name,
            final(self).cells@ == old(self).cells@.push(cell),
    {
        self.cells.push_back(cell);
    }
}

impl IndexedBucketInner {
    /// The position of the column of a component.
    pub fn column_index(&self, name: &ComponentName) -> (r: Option<usize>)
        ensures
            match r {
                Some(k) => k < self.columns@.len() && self.columns@[k as int].name@ == name@,
                None => !self.column_names().contains(name@),
            },
    {
        let mut k: usize = 0;
        while k < self.columns.len()
            invariant
                k <= self.columns@.len(),
                forall|c: int| 0 <= c < k ==> (#[trigger] self.columns@[c]).name@ != name@,
            decreases self.columns@.len() - k,
        {
            if self.columns[k].name.is(name) {
                return Some(k);
            }
            k += 1;
        }
        proof {
            if self.column_names().contains(name@) {
                let c = self.column_names().index_of(name@);
                assert(self.columns@[c].name@ == name@);
            }
        }
        None
    }

    /// Adds an empty column for each cell that has none yet.
    fn add_columns(&mut self, cells: &Vec<DataCell>)
        requires
            old(self).aligned(),
        ensures
            final(self).aligned(),
            final(self).column_names() == with_columns(old(self).column_names(), cells@),
            final(self).columns@.len() >= old(self).columns@.len(),
            final(self).stored_rows() == widened(
                old(self).stored_rows(),
                (final(self).columns@.len() - old(self).columns@.len()) as nat,
            ),
            final(self).is_sorted == old(self).is_sorted,
            final(self).time_range == old(self).time_range,
            final(self).max_row_id == old(self).max_row_id,
            final(self).size_bytes == old(self).size_bytes,
            final(self).store_insert_ids == old(self).store_insert_ids,
            final(self).col_row_id@ == old(self).col_row_id@,
    {
        let num_rows: usize = self.col_row_id.len();
        let mut i: usize = 0;
        proof {
            assert(self.stored_rows() =~= widened(self.stored_rows(), 0)) by {
                assert forall|j: int| 0 <= j < self.stored_rows().len() implies self.stored_rows()[j]
                    == #[trigger] widened(self.stored_rows(), 0)[j] by {
                    assert(self.stored_rows()[j].cells =~= widened(
                        self.stored_rows(),
                        0,
                    )[j].cells);
                }
            }
        }
        while i < cells.len()
            invariant
                i <= cells@.len(),
                num_rows == self.col_row_id@.len(),
                self.aligned(),
                self.column_names() == with_columns(
                    old(self).column_names(),
                    cells@.take(i as int),
                ),
                self.columns@.len() >= old(self).columns@.len(),
                self.stored_rows() == widened(
                    old(self).stored_rows(),
                    (self.columns@.len() - old(self).columns@.len()) as nat,
                ),
                self.is_sorted == old(self).is_sorted,
                self.time_range == old(self).time_range,
                self.max_row_id == old(self).max_row_id,
                self.size_bytes == old(self).size_bytes,
                self.store_insert_ids == old(self).store_insert_ids,
                self.col_row_id@ == old(self).col_row_id@,
            decreases cells@.len() - i,
        {
            let name = cells[i].component_name;
            assert(cells@.take(i + 1).drop_last() =~= cells@.take(i as int));
            let ghost before = *self;
            match self.column_index(&name) {
                Some(k) => {
                    assert(self.column_names()[k as int] == name@);
                },
                None => {
                    self.columns.push(Column::of_empty_slots(name, num_rows));
                    proof {
                        assert(self.column_names() =~= before.column_names().push(name@));
                        let added = (self.columns@.len() - old(self).columns@.len()) as nat;
                        let wide = widened(old(self).stored_rows(), added);
                        assert forall|j: int| 0 <= j < wide.len() implies self.stored_rows()[j]
                            == #[trigger] wide[j] by {
                            assert(before.stored_rows()[j] == widened(
                                old(self).stored_rows(),
                                (added - 1) as nat,
                            )[j]);
                            assert(self.stored_rows()[j].cells
                                =~= before.stored_rows()[j].cells.push(None));
                            assert(self.stored_rows()[j].cells =~= wide[j].cells);
                        }
                        assert(self.stored_rows() =~= wide);
                    }
                },
            }
            i += 1;
        }
        assert(cells@.take(i as int) =~= cells@);
    }

    /// Adds a row at the end, in all columns.
    fn push_row(&mut self, time: i64, row_id: RowId, insert_id: u64, cells: &Vec<DataCell>)
        requires
            old(self).aligned(),
        ensures
            final(self).aligned(),
            final(self).column_names() == old(self).column_names(),
            final(self).stored_rows() == old(self).stored_rows().push(
                new_bucket_row(
                    old(self).column_names(),
                    time,
                    row_id,
                    if old(self).store_insert_ids {
                        Some(insert_id)
                    } else {
                        None
                    },
                    cells@,
                ),
            ),
            final(self).is_sorted == old(self).is_sorted,
            final(self).time_range == old(self).time_range,
            final(self).max_row_id == old(self).max_row_id,
            final(self).size_bytes == old(self).size_bytes,
            final(self).store_insert_ids == old(self).store_insert_ids,
    {
        self.col_time.push_back(time);
        self.col_row_id.push_back(row_id);
        if self.store_insert_ids {
            self.col_insert_id.push_back(insert_id);
        }
        let ghost before = self.columns@;
        let n: usize = self.columns.len();
        let mut k: usize = 0;
        while k < n
            invariant
                n == self.columns@.len(),
                n == before.len(),
                k <= n,
                before == old(self).columns@,
                old(self).aligned(),
                self.col_time@ == old(self).col_time@.push(time),
                self.col_row_id@ == old(self).col_row_id@.push(row_id),
                self.col_insert_id@ == if self.store_insert_ids {
                    old(self).col_insert_id@.push(insert_id)
                } else {
                    old(self).col_insert_id@
                },
                self.is_sorted == old(self).is_sorted,
                self.time_range == old(self).time_range,
                self.max_row_id == old(self).max_row_id,
                self.size_bytes == old(self).size_bytes,
                self.store_insert_ids == old(self).store_insert_ids,
                forall|c: int|
                    #![trigger self.columns@[c]]
                    0 <= c < n ==> self.columns@[c].name == before[c].name
                        && self.columns@[c].cells@ == if c < k {
                        before[c].cells@.push(cell_of(cells@, before[c].name@))
                    } else {
                        before[c].cells@
                    },
            decreases n - k,
        {
            let name = self.columns[k].name;
            assert(name == before[k as int].name);
            let cell = find_cell(cells, &name);
            self.columns[k].push_cell(cell);
            k += 1;
        }
        proof {
            assert(self.column_names() =~= old(self).column_names());
            let row = new_bucket_row(
                old(self).column_names(),
                time,
                row_id,
                if old(self).store_insert_ids {
                    Some(insert_id)
                } else {
                    None
                },
                cells@,
            );
            let expect = old(self).stored_rows().push(row);
            assert forall|c: int| 0 <= c < self.columns@.len() implies (
            #[trigger] self.columns@[c]).cells@.len() == self.col_row_id@.len() by {
                assert(before[c].cells@.len() == old(self).col_row_id@.len());
            }
            assert forall|i: int| 0 <= i < expect.len() implies self.stored_rows()[i]
                == #[trigger] expect[i] by {
                assert forall|c: int| 0 <= c < self.columns@.len() implies #[trigger] self.columns@[c].cells@[i]
                    == expect[i].cells[c] by {
                    assert(before[c].cells@.len() == old(self).col_row_id@.len());
                    assert(old(self).column_names()[c] == before[c].name@);
                }
                assert(self.stored_rows()[i].cells =~= expect[i].cells);
            }
            assert(self.stored_rows() =~= expect);
        }
    }

    /// What the cells of a new row will take up in this bucket, in bytes.
    fn new_row_size(&self, cells: &Vec<DataCell>) -> (r: u64)
        requires
            cells_size(
                new_bucket_row(
                    self.column_names(),
                    0,
                    RowId { bits: 0 },
                    None,
                    cells@,
                ).cells,
            ) <= u64::MAX - 32,
        ensures
            r == ROW_ID_BYTES + TIME_BYTES + (if self.store_insert_ids {
                INSERT_ID_BYTES as int
            } else {
                0
            }) + cells_size(
                new_bucket_row(self.column_names(), 0, RowId { bits: 0 }, None, cells@).cells,
            ),
    {
        let ghost slots = new_bucket_row(
            self.column_names(),
            0,
            RowId { bits: 0 },
            None,
            cells@,
        ).cells;
        let mut size: u64 = ROW_ID_BYTES + TIME_BYTES;
        if self.store_insert_ids {
            size += INSERT_ID_BYTES;
        }
        let ghost base = size as int;
        let mut k: usize = 0;
        while k < self.columns.len()
            invariant
                k <= self.columns@.len(),
                slots.len() == self.columns@.len(),
                slots == new_bucket_row(
                    self.column_names(),
                    0,
                    RowId { bits: 0 },
                    None,
                    cells@,
                ).cells,
                base <= 32,
                cells_size(slots) <= u64::MAX - 32,
                size == base + cells_size(slots.take(k as int)),
            decreases self.columns@.len() - k,
        {
            proof {
                assert(slots.take(k + 1).drop_last() =~= slots.take(k as int));
                lemma_cells_size_prefix(slots, k + 1);
                assert(slots.take(k + 1).last() == slots[k as int]);
                assert(self.column_names()[k as int] == self.columns@[k as int].name@);
                lemma_cells_size_nonneg(slots.take(k as int));
            }
            size += CELL_SLOT_BYTES;
            if let Some(cell) = find_cell(cells, &self.columns[k].name) {
                size += cell.size_bytes;
            }
            k += 1;
        }
        assert(slots.take(k as int) =~= slots);
        size
    }

    /// Adds a row.
    pub fn insert_row(
        &mut self,
        time: TimeInt,
        row_id: RowId,
        insert_id: u64,
        cells: &Vec<DataCell>,
    )
        requires
            old(self).wf(),
            time.value >= TIME_MIN,
            forall|i: int|
                0 <= i < old(self)@.rows.len() ==> (#[trigger] old(self)@.rows[i]).row_id != row_id,
            bucket_with(old(self)@, time.value, row_id, insert_id, cells@).size() <= u64::MAX,
        ensures
            final(self).wf(),
            final(self).store_insert_ids == old(self).store_insert_ids,
            final(self)@ == bucket_with(old(self)@, time.value, row_id, insert_id, cells@),
    {
        proof {
            reveal(IndexedBucketInner::wf);
        }
        let ghost view = self@;
        let ghost stored = self.stored_rows();
        let ghost id = if self.store_insert_ids {
            Some(insert_id)
        } else {
            None
        };
        let ghost new_columns = with_columns(self.column_names(), cells@);
        let ghost row = new_bucket_row(new_columns, time.value, row_id, id, cells@);
        let ghost added = (new_columns.len() - self.columns@.len()) as nat;
        let ghost out = bucket_with(view, time.value, row_id, insert_id, cells@);
        let num_rows: usize = self.col_row_id.len();
        let num_columns: usize = self.columns.len();
        proof {
            lemma_ordered(stored);
            lemma_with_columns(self.column_names(), cells@);
            lemma_bucket_with_valid(view, time.value, row_id, insert_id, cells@);
            lemma_bucket_with_size(view, time.value, row_id, insert_id, cells@);
            lemma_row_size_positive(row);
            lemma_rows_size_nonneg(view.rows);
            lemma_ordered_widened(stored, added);
            assert(0 <= CELL_SLOT_BYTES * added * num_rows) by (nonlinear_arith);
        }
        self.add_columns(cells);
        let added_columns: usize = self.columns.len() - num_columns;
        proof {
            assert(new_bucket_row(
                new_columns,
                0,
                RowId { bits: 0 },
                None,
                cells@,
            ).cells =~= row.cells);
            assert(CELL_SLOT_BYTES * added_columns * num_rows == CELL_SLOT_BYTES * added
                * num_rows);
            assert(CELL_SLOT_BYTES * added_columns <= u64::MAX || num_rows == 0) by (nonlinear_arith)
                requires
                    CELL_SLOT_BYTES * added_columns * num_rows <= u64::MAX,
            ;
        }
        if num_rows > 0 {
            let slots: u64 = CELL_SLOT_BYTES * added_columns as u64;
            self.size_bytes = self.size_bytes + slots * num_rows as u64;
        }
        self.size_bytes = self.size_bytes + self.new_row_size(cells);
        if self.is_sorted && num_rows > 0 {
            let last: i64 = self.col_time[num_rows - 1];
            let last_id = self.col_row_id[num_rows - 1];
            self.is_sorted = last < time.value || (last == time.value && last_id.bits
                < row_id.bits);
        }
        if num_rows == 0 || time.value < self.time_range.min.value {
            self.time_range.min = time;
        }
        if num_rows == 0 || time.value > self.time_range.max.value {
            self.time_range.max = time;
        }
        if row_id.bits > self.max_row_id.bits {
            self.max_row_id = row_id;
        }
        self.push_row(time.value, row_id, insert_id, cells);
        proof {
            let wide = widened(stored, added);
            let all = self.stored_rows();
            assert(all == wide.push(row));
            assert(all.drop_last() =~= wide);
            assert(self@ =~= out);
            assert(row_ids_distinct(all)) by {
                assert forall|i: int, j: int|
                    #![trigger all[i], all[j]]
                    0 <= i < j < all.len() implies all[i].row_id != all[j].row_id by {
                    if j == wide.len() {
                        assert(stored.contains(stored[i]));
                        assert(view.rows.contains(stored[i]));
                        let m = view.rows.index_of(stored[i]);
                        assert(view.rows[m].row_id != row_id);
                    } else {
                        assert(stored[i].row_id != stored[j].row_id);
                    }
                }
            }
            if self.is_sorted {
                assert forall|i: int, j: int|
                    #![trigger all[i], all[j]]
                    0 <= i < j < all.len() implies row_before(all[i], all[j]) by {
                    if j == wide.len() {
                        if i < wide.len() - 1 {
                            assert(row_before(stored[i], stored[stored.len() - 1]));
                        }
                    } else {
                        assert(row_before(stored[i], stored[j]));
                    }
                }
            }
            lemma_insert_bounds(view, widened(view.rows, added), row, out.rows);
        }
    }
}

/// The first and last time and the largest id once a row was put in.
proof fn lemma_insert_bounds(
    view: BucketView,
    wide: Seq<BucketRow>,
    row: BucketRow,
    out: Seq<BucketRow>,
)
    requires
        view.valid(),
        wide.len() == view.rows.len(),
        forall|i: int|
            #![trigger wide[i]]
            0 <= i < wide.len() ==> wide[i].time == view.rows[i].time && wide[i].row_id
                == view.rows[i].row_id,
        forall|i: int| 0 <= i < view.rows.len() ==> (#[trigger] view.rows[i]).row_id != row.row_id,
        out == insert_sorted(wide, row),
    ensures
        out.len() == wide.len() + 1,
        out[0].time == if view.rows.len() == 0 || row.time < view.rows[0].time {
            row.time
        } else {
            view.rows[0].time
        },
        out.last().time == if view.rows.len() == 0 || row.time > view.rows.last().time {
            row.time
        } else {
            view.rows.last().time
        },
        forall|max: RowId|
            #![trigger is_max_row_id(view.rows, max)]
            is_max_row_id(view.rows, max) ==> is_max_row_id(
                out,
                if row.row_id.bits > max.bits {
                    row.row_id
                } else {
                    max
                },
            ),
{
    assert(rows_sorted(wide)) by {
        assert forall|i: int, j: int|
            #![trigger wide[i], wide[j]]
            0 <= i < j < wide.len() implies row_before(wide[i], wide[j]) by {
            assert(row_before(view.rows[i], view.rows[j]));
        }
    }
    assert forall|j: int| 0 <= j < wide.len() implies (#[trigger] wide[j]).row_id
        != row.row_id by {
        assert(view.rows[j].row_id != row.row_id);
    }
    lemma_insert_sorted(wide, row);
    assert(out.contains(out[0]));
    assert(out.contains(out[out.len() - 1]));
    assert(out.contains(row));
    let r = out.index_of(row);
    if r > 0 {
        assert(row_before(out[0], out[r]));
    }
    if r < out.len() - 1 {
        assert(row_before(out[r], out[out.len() - 1]));
    }
    if wide.len() > 0 {
        assert(wide.contains(wide[0]));
        assert(wide.contains(wide[wide.len() - 1]));
        let f = out.index_of(wide[0]);
        let l = out.index_of(wide[wide.len() - 1]);
        assert(out[f].time == view.rows[0].time);
        assert(out[l].time == view.rows[view.rows.len() - 1].time);
        if f > 0 {
            assert(row_before(out[0], out[f]));
        }
        if l < out.len() - 1 {
            assert(row_before(out[l], out[out.len() - 1]));
        }
        if wide.contains(out[0]) {
            let i = wide.index_of(out[0]);
            if i > 0 {
                assert(row_before(wide[0], wide[i]));
            }
        }
        if wide.contains(out[out.len() - 1]) {
            let i = wide.index_of(out[out.len() - 1]);
            if i < wide.len() - 1 {
                assert(row_before(wide[i], wide[wide.len() - 1]));
            }
        }
    }
    assert forall|max: RowId|
        #![trigger is_max_row_id(view.rows, max)]
        is_max_row_id(view.rows, max) implies is_max_row_id(
        out,
        if row.row_id.bits > max.bits {
            row.row_id
        } else {
            max
        },
    ) by {
        let new_max = if row.row_id.bits > max.bits {
            row.row_id
        } else {
            max
        };
        assert forall|i: int| 0 <= i < out.len() implies (#[trigger] out[i]).row_id.bits
            <= new_max.bits by {
            assert(out.contains(out[i]));
            if wide.contains(out[i]) {
                let k = wide.index_of(out[i]);
                assert(view.rows[k].row_id == out[i].row_id);
            }
        }
        if row.row_id.bits > max.bits {
            assert(out[r].row_id == new_max);
        } else if view.rows.len() == 0 {
            assert(out[r].row_id == new_max);
        } else {
            let k = choose|k: int|
                0 <= k < view.rows.len() && (#[trigger] view.rows[k]).row_id == max;
            assert(wide.contains(wide[k]));
            assert(out.contains(wide[k]));
            let m = out.index_of(wide[k]);
            assert(out[m].row_id == new_max);
        }
    }
}

// --- How much a bucket would take up with one more row.

/// The cells that no column exists for yet.
pub open spec fn added_cells(columns: Seq<Seq<char>>, cells: Seq<DataCell>) -> Seq<DataCell>
    decreases cells.len(),
{
    if cells.len() == 0 {
        Seq::empty()
    } else {
        let rest = added_cells(columns, cells.drop_last());
        if columns.contains(cells.last().component_name@) {
            rest
        } else {
            rest.push(cells.last())
        }
    }
}

/// What a bucket takes up once a row of these cells was added to it, in bytes.
pub open spec fn grown_size(bucket: BucketView, cells: Seq<DataCell>) -> int {
    let added = added_cells(bucket.columns, cells);
    bucket.size() + CELL_SLOT_BYTES * added.len() * bucket.rows.len() + ROW_ID_BYTES + TIME_BYTES + (
    if bucket.store_insert_ids {
        INSERT_ID_BYTES as int
    } else {
        0
    }) + cells_size(old_slots(bucket.columns, cells)) + cells_size(new_slots(added))
}

/// The slots of a row in the columns that exist already.
pub open spec fn old_slots(columns: Seq<Seq<char>>, cells: Seq<DataCell>) -> Seq<Option<DataCell>> {
    Seq::new(columns.len(), |k: int| cell_of(cells, columns[k]))
}

/// The slots of a row in the columns that it comes with.
pub open spec fn new_slots(added: Seq<DataCell>) -> Seq<Option<DataCell>> {
    Seq::new(added.len(), |k: int| Some(added[k]))
}

proof fn lemma_added_cells(columns: Seq<Seq<char>>, cells: Seq<DataCell>)
    requires
        components_distinct(cells),
    ensures
        with_columns(columns, cells) == columns + Seq::new(
            added_cells(columns, cells).len(),
            |k: int| added_cells(columns, cells)[k].component_name@,
        ),
        forall|k: int|
            0 <= k < added_cells(columns, cells).len() ==> cells.contains(
                #[trigger] added_cells(columns, cells)[k],
            ) && !columns.contains(added_cells(columns, cells)[k].component_name@),
    decreases cells.len(),
{
    let added = added_cells(columns, cells);
    let names = Seq::new(added.len(), |k: int| added[k].component_name@);
    if cells.len() == 0 {
        assert(columns + names =~= columns);
    } else {
        let init = cells.drop_last();
        assert(components_distinct(init)) by {
            assert forall|i: int, j: int|
                #![trigger init[i], init[j]]
                0 <= i < j < init.len() implies init[i].component_name@
                != init[j].component_name@ by {
                assert(cells[i].component_name@ != cells[j].component_name@);
            }
        }
        lemma_added_cells(columns, init);
        let rest_added = added_cells(columns, init);
        let rest_names = Seq::new(rest_added.len(), |k: int| rest_added[k].component_name@);
        let rest = columns + rest_names;
        let name = cells.last().component_name@;
        assert(with_columns(columns, init) == rest);
        assert(rest.contains(name) <==> columns.contains(name)) by {
            if rest.contains(name) {
                let i = rest.index_of(name);
                if i < columns.len() {
                    assert(columns[i] == name);
                } else {
                    let cell = rest_added[i - columns.len()];
                    assert(init.contains(cell));
                    let j = init.index_of(cell);
                    assert(cells[j].component_name@ != cells[cells.len() - 1].component_name@);
                }
            }
            if columns.contains(name) {
                assert(rest[columns.index_of(name)] == name);
            }
        }
        if !columns.contains(name) {
            assert(columns + names =~= rest.push(name));
        } else {
            assert(names =~= rest_names);
        }
        assert forall|k: int| 0 <= k < added.len() implies cells.contains(#[trigger] added[k])
            && !columns.contains(added[k].component_name@) by {
            if k < rest_added.len() {
                assert(added[k] == rest_added[k]);
                assert(cells[init.index_of(added[k])] == added[k]);
            } else {
                assert(cells[cells.len() - 1] == added[k]);
            }
        }
    }
}

proof fn lemma_cells_size_concat(a: Seq<Option<DataCell>>, b: Seq<Option<DataCell>>)
    ensures
        cells_size(a + b) == cells_size(a) + cells_size(b),
    decreases b.len(),
{
    if b.len() == 0 {
        assert(a + b =~= a);
    } else {
        lemma_cells_size_concat(a, b.drop_last());
        assert((a + b).drop_last() =~= a + b.drop_last());
        assert((a + b).last() == b.last());
    }
}

/// [`grown_size`] is what the bucket takes up with the row in it.
pub proof fn lemma_grown_size(
    bucket: BucketView,
    time: i64,
    row_id: RowId,
    insert_id: u64,
    cells: Seq<DataCell>,
)
    requires
        components_distinct(cells),
    ensures
        bucket_with(bucket, time, row_id, insert_id, cells).size() == grown_size(bucket, cells),
{
    lemma_bucket_with_size(bucket, time, row_id, insert_id, cells);
    lemma_added_cells(bucket.columns, cells);
    let columns = with_columns(bucket.columns, cells);
    let added = added_cells(bucket.columns, cells);
    let slots = Seq::new(columns.len(), |k: int| cell_of(cells, columns[k]));
    let expect = old_slots(bucket.columns, cells) + new_slots(added);
    assert forall|k: int| 0 <= k < slots.len() implies slots[k] == #[trigger] expect[k] by {
        if k >= bucket.columns.len() {
            let cell = added[k - bucket.columns.len()];
            assert(cells.contains(cell));
            let i = cells.index_of(cell);
            assert forall|j: int| 0 <= j < i implies (#[trigger] cells[j]).component_name@
                != cell.component_name@ by {
                assert(cells[i].component_name@ == cell.component_name@);
            }
            lemma_cell_of_found(cells, cell.component_name@, i);
        }
    }
    assert(slots =~= expect);
    lemma_cells_size_concat(old_slots(bucket.columns, cells), new_slots(added));
    let row = new_bucket_row(
        columns,
        time,
        row_id,
        if bucket.store_insert_ids {
            Some(insert_id)
        } else {
            None
        },
        cells,
    );
    assert(row.cells =~= slots);
}

/// The sum, unless it is too large.
fn checked_sum(a: u64, b: u64) -> (r: Option<u64>)
    ensures
        match r {
            Some(sum) => sum == a + b,
            None => a + b > u64::MAX,
        },
{
    a.checked_add(b)
}

/// The product, unless it is too large.
fn checked_product(a: u64, b: u64) -> (r: Option<u64>)
    ensures
        match r {
            Some(product) => product == a * b,
            None => a * b > u64::MAX,
        },
{
    a.checked_mul(b)
}

impl IndexedBucketInner {
    /// What a row takes up in the columns that exist already, unless that is too large.
    fn old_slots_size(&self, cells: &Vec<DataCell>) -> (r: Option<u64>)
        ensures
            match r {
                Some(size) => size == cells_size(old_slots(self.column_names(), cells@)),
                None => cells_size(old_slots(self.column_names(), cells@)) > u64::MAX,
            },
    {
        let ghost slots = old_slots(self.column_names(), cells@);
        let mut size: u64 = 0;
        let mut k: usize = 0;
        while k < self.columns.len()
            invariant
                k <= self.columns@.len(),
                slots == old_slots(self.column_names(), cells@),
                slots.len() == self.columns@.len(),
                size == cells_size(slots.take(k as int)),
            decreases self.columns@.len() - k,
        {
            proof {
                assert(slots.take(k + 1).drop_last() =~= slots.take(k as int));
                assert(slots.take(k + 1).last() == slots[k as int]);
                lemma_cells_size_prefix(slots, k + 1);
                assert(self.column_names()[k as int] == self.columns@[k as int].name@);
            }
            match checked_sum(size, CELL_SLOT_BYTES) {
                Some(sum) => {
                    size = sum;
                },
                None => {
                    return None;
                },
            }
            if let Some(cell) = find_cell(cells, &self.columns[k].name) {
                match checked_sum(size, cell.size_bytes) {
                    Some(sum) => {
                        size = sum;
                    },
                    None => {
                        return None;
                    },
                }
            }
            k += 1;
        }
        assert(slots.take(k as int) =~= slots);
        Some(size)
    }

    /// How many columns a row comes with, and what it takes up in them, unless that is too large.
    fn new_slots_size(&self, cells: &Vec<DataCell>) -> (r: Option<(u64, u64)>)
        ensures
            match r {
                Some((added, size)) => {
                    &&& added == added_cells(self.column_names(), cells@).len()
                    &&& size == cells_size(new_slots(added_cells(self.column_names(), cells@)))
                },
                None => cells_size(new_slots(added_cells(self.column_names(), cells@))) > u64::MAX,
            },
    {
        let ghost columns = self.column_names();
        let mut added: u64 = 0;
        let mut size: u64 = 0;
        let mut i: usize = 0;
        assert(new_slots(added_cells(columns, cells@.take(0))) =~= Seq::empty());
        while i < cells.len()
            invariant
                i <= cells@.len(),
                columns == self.column_names(),
                added == added_cells(columns, cells@.take(i as int)).len(),
                added <= i,
                size == cells_size(new_slots(added_cells(columns, cells@.take(i as int)))),
            decreases cells@.len() - i,
        {
            proof {
                assert(cells@.take(i + 1).drop_last() =~= cells@.take(i as int));
                assert(cells@.take(i + 1).last() == cells@[i as int]);
                lemma_new_slots_prefix(columns, cells@, i + 1);
            }
            match self.column_index(&cells[i].component_name) {
                Some(k) => {
                    assert(columns[k as int] == cells@[i as int].component_name@);
                },
                None => {
                    proof {
                        let before = added_cells(columns, cells@.take(i as int));
                        let after = added_cells(columns, cells@.take(i + 1));
                        assert(new_slots(after).drop_last() =~= new_slots(before));
                    }
                    match checked_sum(size, CELL_SLOT_BYTES) {
                        Some(sum) => {
                            size = sum;
                        },
                        None => {
                            return None;
                        },
                    }
                    match checked_sum(size, cells[i].size_bytes) {
                        Some(sum) => {
                            size = sum;
                        },
                        None => {
                            return None;
                        },
                    }
                    added += 1;
                },
            }
            i += 1;
        }
        assert(cells@.take(i as int) =~= cells@);
        Some((added, size))
    }

    /// What the bucket would take up with one more row of these cells, unless that is too large.
    pub fn size_with(&self, cells: &Vec<DataCell>) -> (r: Option<u64>)
        requires
            self.wf(),
        ensures
            match r {
                Some(size) => size == grown_size(self@, cells@),
                None => grown_size(self@, cells@) > u64::MAX,
            },
    {
        let ghost columns = self.column_names();
        let num_rows: usize = self.num_rows();
        let mut base: u64 = ROW_ID_BYTES + TIME_BYTES;
        if self.store_insert_ids {
            base += INSERT_ID_BYTES;
        }
        proof {
            reveal(IndexedBucketInner::wf);
            lemma_cells_size_nonneg(old_slots(columns, cells@));
            lemma_cells_size_nonneg(new_slots(added_cells(columns, cells@)));
            let n = added_cells(columns, cells@).len();
            assert(CELL_SLOT_BYTES * n * num_rows >= 0) by (nonlinear_arith);
        }
        let old_size: u64 = match self.old_slots_size(cells) {
            Some(size) => size,
            None => {
                return None;
            },
        };
        let (added, new_size): (u64, u64) = match self.new_slots_size(cells) {
            Some(pair) => pair,
            None => {
                return None;
            },
        };
        let mut wider: u64 = 0;
        if num_rows > 0 {
            let slots: u64 = match checked_product(CELL_SLOT_BYTES, added) {
                Some(slots) => slots,
                None => {
                    proof {
                        assert(CELL_SLOT_BYTES * added * num_rows >= CELL_SLOT_BYTES * added)
                            by (nonlinear_arith)
                            requires
                                num_rows > 0,
                        ;
                    }
                    return None;
                },
            };
            wider = match checked_product(slots, num_rows as u64) {
                Some(wider) => wider,
                None => {
                    return None;
                },
            };
        }
        let mut size: u64 = self.size_bytes;
        let parts: [u64; 4] = [wider, base, old_size, new_size];
        let mut p: usize = 0;
        while p < 4
            invariant
                p <= 4,
                parts@ == seq![wider, base, old_size, new_size],
                size == self.size_bytes + (if p > 0 {
                    wider as int
                } else {
                    0
                }) + (if p > 1 {
                    base as int
                } else {
                    0
                }) + (if p > 2 {
                    old_size as int
                } else {
                    0
                }) + (if p > 3 {
                    new_size as int
                } else {
                    0
                }),
                grown_size(self@, cells@) == self.size_bytes + wider + base + old_size + new_size,
            decreases 4 - p,
        {
            match checked_sum(size, parts[p]) {
                Some(sum) => {
                    size = sum;
                },
                None => {
                    return None;
                },
            }
            p += 1;
        }
        Some(size)
    }
}

proof fn lemma_new_slots_prefix(columns: Seq<Seq<char>>, cells: Seq<DataCell>, n: int)
    requires
        0 <= n <= cells.len(),
    ensures
        cells_size(new_slots(added_cells(columns, cells.take(n)))) <= cells_size(
            new_slots(added_cells(columns, cells)),
        ),
    decreases cells.len() - n,
{
    if n < cells.len() {
        lemma_new_slots_prefix(columns, cells, n + 1);
        assert(cells.take(n + 1).drop_last() =~= cells.take(n));
        let before = added_cells(columns, cells.take(n));
        let after = added_cells(columns, cells.take(n + 1));
        if after.len() > before.len() {
            assert(new_slots(after).drop_last() =~= new_slots(before));
        }
    } else {
        assert(cells.take(n) =~= cells);
    }
}

} // verus!

//! The cells of one component of one table in the order of time, and what is latest among them.
use crate::bucket::{BucketView, IndexedBucketInner};
use crate::names::{ComponentName, RowId, TimeInt};
use crate::row::DataCell;
use crate::sorting::{lemma_ordered, lemma_ordered_sorted, row_before, rows_sorted, BucketRow};
use crate::table::{bucket_views, IndexedTable, TableBucket};
use std::collections::HashSet;
use vstd::prelude::*;

verus! {

/// A cell together with the time and the row that it was logged with.
pub struct Entry {
    pub time: i64,
    pub row_id: RowId,
    pub cell: DataCell,
}

/// The cells in one column, row by row.
pub open spec fn column_entries(rows: Seq<BucketRow>, column: int) -> Seq<Entry>
    decreases rows.len(),
{
    if rows.len() == 0 {
        Seq::empty()
    } else {
        let rest = column_entries(rows.drop_last(), column);
        match rows.last().cells[column] {
            Some(cell) => rest.push(
                Entry { time: rows.last().time, row_id: rows.last().row_id, cell },
            ),
            None => rest,
        }
    }
}

/// The cells of one component in one bucket, in order.
pub open spec fn entries_in_bucket(bucket: BucketView, component: Seq<char>) -> Seq<Entry> {
    if bucket.columns.contains(component) {
        column_entries(bucket.rows, bucket.columns.index_of(component))
    } else {
        Seq::empty()
    }
}

/// The cells of one component in several buckets, in order.
pub open spec fn entries_in(buckets: Seq<TableBucket>, component: Seq<char>) -> Seq<Entry>
    decreases buckets.len(),
{
    if buckets.len() == 0 {
        Seq::empty()
    } else {
        entries_in(buckets.drop_last(), component) + entries_in_bucket(
            buckets.last().bucket,
            component,
        )
    }
}

/// The last of some entries that is not later than a given time.
pub open spec fn latest_until(entries: Seq<Entry>, at: i64) -> Option<Entry>
    decreases entries.len(),
{
    if entries.len() == 0 {
        None
    } else if entries.last().time <= at {
        Some(entries.last())
    } else {
        latest_until(entries.drop_last(), at)
    }
}

/// The row ids of the last `count` entries.
pub open spec fn last_row_ids(entries: Seq<Entry>, count: nat) -> Set<u128> {
    Set::new(
        |id: u128|
            exists|i: int|
                0 <= i < entries.len() && entries.len() - count <= i && (
                #[trigger] entries[i]).row_id.bits == id,
    )
}

// --- The latest entry.

proof fn lemma_latest_concat(a: Seq<Entry>, b: Seq<Entry>, at: i64)
    ensures
        latest_until(a + b, at) == match latest_until(b, at) {
            Some(entry) => Some(entry),
            None => latest_until(a, at),
        },
    decreases b.len(),
{
    if b.len() == 0 {
        assert(a + b =~= a);
    } else {
        assert((a + b).last() == b.last());
        assert((a + b).drop_last() =~= a + b.drop_last());
        lemma_latest_concat(a, b.drop_last(), at);
    }
}

/// Whether a row has a cell in a column and is not later than a given time.
pub open spec fn eligible(row: BucketRow, column: int, at: i64) -> bool {
    row.cells[column] is Some && row.time <= at
}

/// Of the rows in order that have a cell and are not too late, the one that comes last is latest.
proof fn lemma_latest_of_rows(rows: Seq<BucketRow>, column: int, at: i64, best: Option<BucketRow>)
    requires
        rows_sorted(rows),
        match best {
            Some(row) => rows.contains(row) && eligible(row, column, at) && forall|x: BucketRow|
                #[trigger] rows.contains(x) && eligible(x, column, at) ==> x == row || row_before(
                    x,
                    row,
                ),
            None => forall|x: BucketRow| #[trigger] rows.contains(x) ==> !eligible(x, column, at),
        },
    ensures
        latest_until(column_entries(rows, column), at) == match best {
            Some(row) => Some(
                Entry { time: row.time, row_id: row.row_id, cell: row.cells[column]->0 },
            ),
            None => None,
        },
    decreases rows.len(),
{
    if rows.len() > 0 {
        let init = rows.drop_last();
        let last = rows.last();
        assert(rows.contains(rows[rows.len() - 1]));
        assert(rows_sorted(init)) by {
            assert forall|i: int, j: int|
                #![trigger init[i], init[j]]
                0 <= i < j < init.len() implies row_before(init[i], init[j]) by {
                assert(row_before(rows[i], rows[j]));
            }
        }
        assert forall|x: BucketRow| #[trigger] init.contains(x) implies rows.contains(x) by {
            assert(rows[init.index_of(x)] == x);
        }
        if eligible(last, column, at) {
            let row = best->0;
            if row != last {
                let i = rows.index_of(row);
                assert(row_before(rows[i], rows[rows.len() - 1]));
            }
            assert(column_entries(rows, column).last().time == last.time);
        } else {
            match best {
                Some(row) => {
                    let i = rows.index_of(row);
                    assert(init[i] == row);
                },
                None => {},
            }
            lemma_latest_of_rows(init, column, at, best);
            if last.cells[column] is Some {
                let rest = column_entries(init, column);
                assert(column_entries(rows, column).drop_last() =~= rest);
            }
        }
    } else {
        match best {
            Some(row) => {
                assert(rows.contains(row));
            },
            None => {},
        }
    }
}

pub open spec fn entry_of(found: Option<(TimeInt, RowId, DataCell)>) -> Option<Entry> {
    match found {
        Some((time, row_id, cell)) => Some(Entry { time: time.value, row_id, cell }),
        None => None,
    }
}

impl IndexedBucketInner {
    /// The latest cell of a component that is not later than a given time.
    pub fn latest_at(&self, at: TimeInt, component: &ComponentName) -> (r: Option<
        (TimeInt, RowId, DataCell),
    >)
        requires
            self.wf(),
        ensures
            entry_of(r) == latest_until(entries_in_bucket(self@, component@), at.value),
    {
        let column: usize = match self.column_index(component) {
            Some(column) => column,
            None => {
                return None;
            },
        };
        let ghost stored = self.stored_rows();
        let ghost rows = self@.rows;
        proof {
            reveal(IndexedBucketInner::wf);
            lemma_ordered(stored);
            let names = self.column_names();
            assert(names[column as int] == component@);
            let k = names.index_of(component@);
            if k < column {
                assert(names[k] != names[column as int]);
            } else if column < k {
                assert(names[column as int] != names[k]);
            }
        }
        let mut best: Option<usize> = None;
        let mut i: usize = 0;
        assert(self.columns@[column as int].cells@.len() == self.col_row_id@.len());
        while i < self.col_row_id.len()
            invariant
                i <= self.col_row_id@.len(),
                column < self.columns@.len(),
                self.aligned(),
                self.columns@[column as int].cells@.len() == self.col_row_id@.len(),
                stored == self.stored_rows(),
                match best {
                    Some(b) => b < i && eligible(stored[b as int], column as int, at.value)
                        && forall|j: int|
                        0 <= j < i && eligible(#[trigger] stored[j], column as int, at.value)
                            ==> !row_before(stored[b as int], stored[j]),
                    None => forall|j: int|
                        0 <= j < i ==> !eligible(#[trigger] stored[j], column as int, at.value),
                },
            decreases self.col_row_id@.len() - i,
        {
            let time: i64 = self.col_time[i];
            assert(stored[i as int].cells[column as int] == self.columns@[column as int].cells@[i as int]);
            let has_cell = match &self.columns[column].cells[i] {
                Some(_) => true,
                None => false,
            };
            if has_cell && time <= at.value {
                match best {
                    Some(b) => {
                        let (t, id) = (self.col_time[b], self.col_row_id[b]);
                        if t < time || (t == time && id.bits < self.col_row_id[i].bits) {
                            best = Some(i);
                        }
                    },
                    None => {
                        best = Some(i);
                    },
                }
            }
            i += 1;
        }
        let ghost best_row = match best {
            Some(b) => Some(stored[b as int]),
            None => None,
        };
        proof {
            match best {
                Some(b) => {
                    let row = stored[b as int];
                    assert(stored.contains(row));
                    assert forall|x: BucketRow| #[trigger] rows.contains(x) && eligible(
                        x,
                        column as int,
                        at.value,
                    ) implies x == row || row_before(x, row) by {
                        assert(stored.contains(x));
                        let j = stored.index_of(x);
                        assert(!row_before(stored[b as int], stored[j]));
                        if j < b {
                            assert(stored[j].row_id != stored[b as int].row_id);
                        } else if b < j {
                            assert(stored[b as int].row_id != stored[j].row_id);
                        }
                    }
                },
                None => {
                    assert forall|x: BucketRow| #[trigger] rows.contains(x) implies !eligible(
                        x,
                        column as int,
                        at.value,
                    ) by {
                        assert(stored.contains(x));
                        let j = stored.index_of(x);
                        assert(!eligible(stored[j], column as int, at.value));
                    }
                },
            }
            lemma_latest_of_rows(rows, column as int, at.value, best_row);
        }
        match best {
            Some(b) => {
                assert(stored[b as int].cells[column as int] == self.columns@[column as int].cells@[b as int]);
                match &self.columns[column].cells[b] {
                    Some(cell) => Some(
                        (TimeInt { value: self.col_time[b] }, self.col_row_id[b], cell.clone()),
                    ),
                    None => None,
                }
            },
            None => None,
        }
    }
}

impl IndexedTable {
    /// The latest cell of a component that is not later than a given time.
    pub fn latest_at(&self, at: TimeInt, component: &ComponentName) -> (r: Option<
        (TimeInt, RowId, DataCell),
    >)
        requires
            self.wf(),
        ensures
            entry_of(r) == latest_until(entries_in(self@.buckets, component@), at.value),
    {
        let ghost all = self@.buckets;
        let mut b: usize = self.buckets.len();
        assert(all.take(b as int) =~= all);
        while b > 0
            invariant
                b <= self.buckets@.len(),
                all == self@.buckets,
                forall|b: int|
                    0 <= b < self.buckets@.len() ==> (#[trigger] self.buckets@[b]).inner.wf(),
                latest_until(entries_in(all, component@), at.value) == latest_until(
                    entries_in(all.take(b as int), component@),
                    at.value,
                ),
            decreases b,
        {
            assert(self.buckets@[b - 1].inner.wf());
            let found = self.buckets[b - 1].inner.latest_at(at, component);
            proof {
                assert(all.take(b as int).drop_last() =~= all.take(b - 1));
                assert(all.take(b as int).last() == all[b - 1]);
                lemma_latest_concat(
                    entries_in(all.take(b - 1), component@),
                    entries_in_bucket(all[b - 1].bucket, component@),
                    at.value,
                );
            }
            if found.is_some() {
                return found;
            }
            b -= 1;
        }
        None
    }
}

// --- The latest few.

/// `ahash::RandomState`: the keyed hasher of `ahash`.
#[verifier::external_type_specification]
#[verifier::external_body]
pub struct ExRandomState(ahash::RandomState);

/// A set of row ids.
pub type RowIdSet = HashSet<u128, ahash::RandomState>;

/// A set without any row ids.
///
/// Calls `HashSet::default` for a set that hashes with `ahash`.
#[verifier::external_body]
pub(crate) fn new_row_id_set() -> (r: RowIdSet)
    ensures
        r@ == Set::<u128>::empty(),
{
    ahash::HashSet::default()
}

/// Adds a row id to a set.
///
/// Calls `HashSet::insert` on a set that hashes with `ahash`.
#[verifier::external_body]
pub(crate) fn insert_row_id(set: &mut RowIdSet, row_id: RowId)
    ensures
        final(set)@ == old(set)@.insert(row_id.bits),
{
    set.insert(row_id.bits);
}

/// Whether a row id is in a set.
///
/// Calls `HashSet::contains` on a set that hashes with `ahash`.
#[verifier::external_body]
pub(crate) fn contains_row_id(set: &RowIdSet, row_id: RowId) -> (r: bool)
    ensures
        r == set@.contains(row_id.bits),
{
    set.contains(&row_id.bits)
}

proof fn lemma_last_row_ids_step(entry: Entry, tail: Seq<Entry>, count: nat)
    ensures
        last_row_ids(seq![entry] + tail, count) == if tail.len() < count {
            last_row_ids(tail, count).insert(entry.row_id.bits)
        } else {
            last_row_ids(tail, count)
        },
{
    let all = seq![entry] + tail;
    let left = last_row_ids(all, count);
    let right = if tail.len() < count {
        last_row_ids(tail, count).insert(entry.row_id.bits)
    } else {
        last_row_ids(tail, count)
    };
    assert forall|id: u128| left.contains(id) <==> right.contains(id) by {
        if left.contains(id) {
            let i = choose|i: int|
                0 <= i < all.len() && all.len() - count <= i && (
                #[trigger] all[i]).row_id.bits == id;
            if i > 0 {
                assert(tail[i - 1].row_id.bits == id);
            }
        }
        if last_row_ids(tail, count).contains(id) {
            let i = choose|i: int|
                0 <= i < tail.len() && tail.len() - count <= i && (
                #[trigger] tail[i]).row_id.bits == id;
            assert(all[i + 1].row_id.bits == id);
        }
        if tail.len() < count && id == entry.row_id.bits {
            assert(all[0].row_id.bits == id);
        }
    }
    assert(left =~= right);
}

impl IndexedBucketInner {
    /// Protects the rows with the last cells of a component, as far as they are still to be found,
    /// and returns how many are to be found before this bucket.
    fn protect_latest(
        &self,
        component: &ComponentName,
        still_to_find: usize,
        protected: &mut RowIdSet,
        count: Ghost<nat>,
        tail: Ghost<Seq<Entry>>,
        base: Ghost<Set<u128>>,
    ) -> (r: usize)
        requires
            self.wf(),
            self.is_sorted,
            old(protected)@ == base@.union(last_row_ids(tail@, count@)),
            still_to_find == if tail@.len() < count@ {
                count@ - tail@.len()
            } else {
                0
            },
        ensures
            ({
                let longer = entries_in_bucket(self@, component@) + tail@;
                &&& final(protected)@ == base@.union(last_row_ids(longer, count@))
                &&& r == if longer.len() < count@ {
                    count@ - longer.len()
                } else {
                    0
                }
            }),
    {
        let column: usize = match self.column_index(component) {
            Some(column) => column,
            None => {
                assert(entries_in_bucket(self@, component@) + tail@ =~= tail@);
                return still_to_find;
            },
        };
        let ghost rows = self@.rows;
        proof {
            reveal(IndexedBucketInner::wf);
            lemma_ordered_sorted(self.stored_rows());
            let names = self.column_names();
            assert(names[column as int] == component@);
            let k = names.index_of(component@);
            if k < column {
                assert(names[k] != names[column as int]);
            } else if column < k {
                assert(names[column as int] != names[k]);
            }
        }
        let ghost entries = column_entries(rows, column as int);
        let ghost mut done: Seq<Entry> = Seq::empty();
        let mut to_find: usize = still_to_find;
        let mut i: usize = self.col_row_id.len();
        proof {
            assert(rows.take(i as int) =~= rows);
            assert(entries =~= column_entries(rows.take(i as int), column as int) + done);
            assert(done + tail@ =~= tail@);
            assert(self.columns@[column as int].cells@.len() == self.col_row_id@.len());
        }
        while i > 0
            invariant
                i <= self.col_row_id@.len(),
                column < self.columns@.len(),
                self.columns@[column as int].cells@.len() == self.col_row_id@.len(),
                rows == self.stored_rows(),
                entries == column_entries(rows, column as int),
                entries == column_entries(rows.take(i as int), column as int) + done,
                protected@ == base@.union(last_row_ids(done + tail@, count@)),
                to_find == if (done + tail@).len() < count@ {
                    count@ - (done + tail@).len()
                } else {
                    0
                },
            decreases i,
        {
            i -= 1;
            proof {
                assert(rows.take(i + 1).drop_last() =~= rows.take(i as int));
                assert(rows.take(i + 1).last() == rows[i as int]);
                assert(rows[i as int].cells[column as int]
                    == self.columns@[column as int].cells@[i as int]);
            }
            let has_cell = match &self.columns[column].cells[i] {
                Some(_) => true,
                None => false,
            };
            if has_cell {
                let row_id = self.col_row_id[i];
                proof {
                    let entry = Entry {
                        time: rows[i as int].time,
                        row_id,
                        cell: rows[i as int].cells[column as int]->0,
                    };
                    let before = done + tail@;
                    lemma_last_row_ids_step(entry, before, count@);
                    let head = column_entries(rows.take(i as int), column as int);
                    assert(head.push(entry) + done =~= head + (seq![entry] + done));
                    assert(seq![entry] + before =~= (seq![entry] + done) + tail@);
                    assert(base@.union(last_row_ids(before, count@)).insert(row_id.bits)
                        =~= base@.union(last_row_ids(before, count@).insert(row_id.bits)));
                    done = seq![entry] + done;
                }
                if to_find > 0 {
                    insert_row_id(protected, row_id);
                    to_find -= 1;
                }
            }
        }
        proof {
            assert(rows.take(0) =~= Seq::<BucketRow>::empty());
            assert(column_entries(rows.take(0), column as int) + done =~= done);
        }
        to_find
    }
}

impl IndexedTable {
    /// Whether the rows of all buckets lie in order.
    pub open spec fn is_sorted(self) -> bool {
        forall|b: int| 0 <= b < self.buckets@.len() ==> (#[trigger] self.buckets@[b]).inner.is_sorted
    }

    /// Puts the rows of all buckets in order.
    pub fn sort_if_needed(&mut self)
        requires
            old(self).wf(),
        ensures
            final(self).wf(),
            final(self).is_sorted(),
            final(self)@ == old(self)@,
    {
        let n: usize = self.buckets.len();
        let mut b: usize = 0;
        while b < n
            invariant
                b <= n,
                n == self.buckets@.len(),
                n == old(self).buckets@.len(),
                forall|c: int|
                    0 <= c < n ==> (#[trigger] self.buckets@[c]).inner.wf() && self.buckets@[c]@
                        == old(self).buckets@[c]@,
                forall|c: int| 0 <= c < b ==> (#[trigger] self.buckets@[c]).inner.is_sorted,
                self.timeline == old(self).timeline,
                self.entity_path == old(self).entity_path,
                self.all_components == old(self).all_components,
                self.buckets_num_rows == old(self).buckets_num_rows,
                self.buckets_size_bytes == old(self).buckets_size_bytes,
                self.store_insert_ids == old(self).store_insert_ids,
            decreases n - b,
        {
            assert(self.buckets@[b as int].inner.wf());
            self.buckets[b].inner.sort();
            b += 1;
        }
        assert(bucket_views(self.buckets@) =~= bucket_views(old(self).buckets@));
        assert(self@ =~= old(self)@);
    }

    /// Protects the rows with the last `count` cells of a component.
    pub fn protect_latest(&self, component: &ComponentName, count: usize, protected: &mut RowIdSet)
        requires
            self.wf(),
            self.is_sorted(),
        ensures
            final(protected)@ == old(protected)@.union(
                last_row_ids(entries_in(self@.buckets, component@), count as nat),
            ),
    {
        let ghost all = self@.buckets;
        let ghost base = protected@;
        let ghost mut tail: Seq<Entry> = Seq::empty();
        let mut to_find: usize = count;
        let mut b: usize = self.buckets.len();
        proof {
            assert(all.take(b as int) =~= all);
            assert(entries_in(all, component@) =~= entries_in(all.take(b as int), component@) + tail);
            assert(base.union(last_row_ids(tail, count as nat)) =~= base);
        }
        while b > 0
            invariant
                b <= self.buckets@.len(),
                all == self@.buckets,
                self.wf(),
                self.is_sorted(),
                entries_in(all, component@) == entries_in(all.take(b as int), component@) + tail,
                protected@ == base.union(last_row_ids(tail, count as nat)),
                to_find == if tail.len() < count {
                    count - tail.len()
                } else {
                    0
                },
            decreases b,
        {
            b -= 1;
            assert(self.buckets@[b as int].inner.wf());
            to_find = self.buckets[b].inner.protect_latest(
                component,
                to_find,
                protected,
                Ghost(count as nat),
                Ghost(tail),
                Ghost(base),
            );
            proof {
                assert(all.take(b + 1).drop_last() =~= all.take(b as int));
                assert(all.take(b + 1).last() == all[b as int]);
                let here = entries_in_bucket(all[b as int].bucket, component@);
                let head = entries_in(all.take(b as int), component@);
                assert((head + here) + tail =~= head + (here + tail));
                tail = here + tail;
            }
        }
        assert(entries_in(all.take(0), component@) + tail =~= tail);
    }
}

} // verus!

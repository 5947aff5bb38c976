//! Which rows a collection must leave alone, and which tables it can do without.
use crate::bucket::{BucketView, IndexedBucketInner};
use crate::entries::{entries_in, last_row_ids, new_row_id_set, RowIdSet};
use crate::gc::all_tables_wf;
use crate::names::{is_one_of, names_contain, ComponentName, RowId};
use crate::row::{diff_views, put_cell, DataCell, DiffView, StoreDiff};
use crate::sorting::{lemma_ordered, BucketRow};
use crate::store::{slots, tables_valid, DataStore, StoreView, TableSlot};
use crate::table::{bucket_diffs, lemma_diff_views_append, IndexedTable, TableView};
use vstd::prelude::*;

verus! {

/// Whether a row holds one of the last `count` cells of the `k`-th component of a table.
pub open spec fn protects(
    table: TableView,
    count: nat,
    dont_protect: Seq<ComponentName>,
    k: int,
    row_id: u128,
) -> bool {
    &&& 0 <= k < table.all_components.len()
    &&& !names_contain(dont_protect, table.all_components[k])
    &&& last_row_ids(entries_in(table.buckets, table.all_components[k]), count).contains(row_id)
}

/// The rows that hold one of the last `count` cells of any component, on any timeline.
pub open spec fn protected_rows(
    tables: Seq<TableSlot>,
    count: nat,
    dont_protect: Seq<ComponentName>,
) -> Set<u128> {
    Set::new(
        |row_id: u128|
            exists|t: int, k: int|
                0 <= t < tables.len() && #[trigger] protects(
                    tables[t].table,
                    count,
                    dont_protect,
                    k,
                    row_id,
                ),
    )
}

impl IndexedTable {
    /// Protects the rows that hold one of the last `count` cells of any component.
    fn protect_all(
        &self,
        count: usize,
        dont_protect: &Vec<ComponentName>,
        protected: &mut RowIdSet,
    )
        requires
            self.wf(),
            self.is_sorted(),
        ensures
            forall|id: u128|
                final(protected)@.contains(id) <==> old(protected)@.contains(id) || exists|k: int|
                    #[trigger] protects(self@, count as nat, dont_protect@, k, id),
    {
        let mut c: usize = 0;
        while c < self.all_components.len()
            invariant
                c <= self.all_components@.len(),
                self.wf(),
                self.is_sorted(),
                forall|id: u128|
                    #![trigger protected@.contains(id)]
                    protected@.contains(id) <==> old(protected)@.contains(id) || exists|k: int|
                        k < c && #[trigger] protects(self@, count as nat, dont_protect@, k, id),
            decreases self.all_components@.len() - c,
        {
            let component = self.all_components[c];
            let ghost before = protected@;
            assert(self@.all_components[c as int] == component@);
            if !is_one_of(&component, dont_protect) {
                self.protect_latest(&component, count, protected);
            }
            proof {
                assert forall|id: u128|
                    #![trigger protected@.contains(id)]
                    protected@.contains(id) <==> old(protected)@.contains(id) || exists|k: int|
                        k < c + 1 && #[trigger] protects(
                            self@,
                            count as nat,
                            dont_protect@,
                            k,
                            id,
                        ) by {
                    assert(before.contains(id) <==> old(protected)@.contains(id) || exists|k: int|
                        k < c && #[trigger] protects(self@, count as nat, dont_protect@, k, id));
                    let here = protects(self@, count as nat, dont_protect@, c as int, id);
                    assert(protected@.contains(id) <==> before.contains(id) || here);
                    if exists|k: int|
                        k < c + 1 && #[trigger] protects(
                            self@,
                            count as nat,
                            dont_protect@,
                            k,
                            id,
                        ) {
                        let k = choose|k: int|
                            k < c + 1 && #[trigger] protects(
                                self@,
                                count as nat,
                                dont_protect@,
                                k,
                                id,
                            );
                        assert(k < c || k == c);
                    }
                }
            }
            c += 1;
        }
    }
}

impl DataStore {
    /// Puts the rows of all tables in order.
    pub fn sort_indices_if_needed(&mut self)
        requires
            old(self).wf(),
        ensures
            final(self).wf(),
            final(self)@ == old(self)@,
            final(self).id == old(self).id,
            final(self).config == old(self).config,
            forall|i: int|
                0 <= i < final(self).tables@.len() ==> (#[trigger] final(
                    self).tables@[i]).table.is_sorted(),
    {
        let n: usize = self.tables.len();
        let mut i: usize = 0;
        while i < n
            invariant
                i <= n,
                n == self.tables@.len(),
                n == old(self).tables@.len(),
                forall|j: int|
                    0 <= j < n ==> (#[trigger] self.tables@[j]).table.wf() && self.tables@[j]@
                        == old(self).tables@[j]@,
                forall|j: int| 0 <= j < i ==> (#[trigger] self.tables@[j]).table.is_sorted(),
                self.id == old(self).id,
                self.config == old(self).config,
                self.type_registry == old(self).type_registry,
                self.metadata_registry == old(self).metadata_registry,
                self.static_tables == old(self).static_tables,
                self.insert_id == old(self).insert_id,
                self.gc_id == old(self).gc_id,
                self.event_id == old(self).event_id,
            decreases n - i,
        {
            assert(self.tables@[i as int].table.wf());
            self.tables[i].table.sort_if_needed();
            i += 1;
        }
        assert(slots(self.tables@) =~= slots(old(self).tables@));
        assert(self@ =~= old(self)@);
    }

    /// For each entity, timeline and component, finds the rows with the latest `target_count`
    /// cells.
    pub(crate) fn find_all_protected_rows(
        &mut self,
        target_count: usize,
        dont_protect: &Vec<ComponentName>,
    ) -> (r: RowIdSet)
        requires
            old(self).wf(),
        ensures
            final(self).wf(),
            final(self)@ == old(self)@,
            final(self).id == old(self).id,
            final(self).config == old(self).config,
            r@ == protected_rows(old(self)@.tables, target_count as nat, dont_protect@),
    {
        let ghost tables = self@.tables;
        let mut protected = new_row_id_set();
        if target_count == 0 {
            proof {
                assert forall|t: int, k: int, id: u128| !protects(
                    tables[t].table,
                    0,
                    dont_protect@,
                    k,
                    id,
                ) by {}
                assert(protected@ =~= protected_rows(tables, 0, dont_protect@));
            }
            return protected;
        }
        // The rows have to be in order to tell which ones are the latest.
        self.sort_indices_if_needed();
        let mut i: usize = 0;
        while i < self.tables.len()
            invariant
                i <= self.tables@.len(),
                self.wf(),
                self@ == old(self)@,
                self.id == old(self).id,
                self.config == old(self).config,
                tables == self@.tables,
                forall|j: int|
                    0 <= j < self.tables@.len() ==> (
                    #[trigger] self.tables@[j]).table.is_sorted(),
                forall|id: u128|
                    #![trigger protected@.contains(id)]
                    protected@.contains(id) <==> exists|t: int, k: int|
                        0 <= t < i && #[trigger] protects(
                            tables[t].table,
                            target_count as nat,
                            dont_protect@,
                            k,
                            id,
                        ),
            decreases self.tables@.len() - i,
        {
            let ghost before = protected@;
            assert(self.tables@[i as int].table.wf());
            assert(tables[i as int].table == self.tables@[i as int].table@);
            self.tables[i].table.protect_all(target_count, dont_protect, &mut protected);
            proof {
                assert forall|id: u128|
                    #![trigger protected@.contains(id)]
                    protected@.contains(id) <==> exists|t: int, k: int|
                        0 <= t < i + 1 && #[trigger] protects(
                            tables[t].table,
                            target_count as nat,
                            dont_protect@,
                            k,
                            id,
                        ) by {
                    assert(before.contains(id) <==> exists|t: int, k: int|
                        0 <= t < i && #[trigger] protects(
                            tables[t].table,
                            target_count as nat,
                            dont_protect@,
                            k,
                            id,
                        ));
                    if exists|t: int, k: int|
                        0 <= t < i + 1 && #[trigger] protects(
                            tables[t].table,
                            target_count as nat,
                            dont_protect@,
                            k,
                            id,
                        ) {
                        let (t, k) = choose|t: int, k: int|
                            0 <= t < i + 1 && #[trigger] protects(
                                tables[t].table,
                                target_count as nat,
                                dont_protect@,
                                k,
                                id,
                            );
                        assert(t < i || t == i);
                    }
                }
            }
            i += 1;
        }
        assert(protected@ =~= protected_rows(tables, target_count as nat, dont_protect@));
        protected
    }
}

// --- Tables without data.

/// Whether any cell of a bucket holds an instance.
pub open spec fn bucket_has_data(bucket: BucketView) -> bool {
    exists|i: int, k: int|
        0 <= i < bucket.rows.len() && 0 <= k < bucket.columns.len() && holds_instances(
            #[trigger] bucket.rows[i].cells[k],
        )
}

pub open spec fn holds_instances(cell: Option<DataCell>) -> bool {
    match cell {
        Some(cell) => cell.num_instances > 0,
        None => false,
    }
}

/// Whether any cell of a table holds an instance.
pub open spec fn table_has_data(table: TableView) -> bool {
    exists|b: int| 0 <= b < table.buckets.len() && bucket_has_data(#[trigger] table.buckets[b].bucket)
}

/// How many removed rows have a smaller id.
pub open spec fn diffs_below(diffs: Seq<DiffView>, row_id: RowId) -> int
    decreases diffs.len(),
{
    if diffs.len() == 0 {
        0
    } else if diffs.last().row_id.bits < row_id.bits {
        diffs.len() as int
    } else {
        diffs_below(diffs.drop_last(), row_id)
    }
}

pub proof fn lemma_diffs_below_bounds(diffs: Seq<DiffView>, row_id: RowId)
    ensures
        0 <= diffs_below(diffs, row_id) <= diffs.len(),
    decreases diffs.len(),
{
    if diffs.len() > 0 {
        lemma_diffs_below_bounds(diffs.drop_last(), row_id);
    }
}

/// What becomes of the cells of a difference when more come in.
pub open spec fn put_cells(cells: Seq<DataCell>, more: Seq<DataCell>) -> Seq<DataCell>
    decreases more.len(),
{
    if more.len() == 0 {
        cells
    } else {
        put_cell(put_cells(cells, more.drop_last()), more.last())
    }
}

/// Takes in a purged row; if it was purged from another table before, its times and cells are
/// added. The list stays in the order of row ids.
pub open spec fn put_purged(diffs: Seq<DiffView>, row: DiffView) -> Seq<DiffView> {
    let at = diffs_below(diffs, row.row_id);
    if at < diffs.len() && diffs[at].row_id == row.row_id {
        diffs.update(
            at,
            DiffView {
                times: diffs[at].times + row.times,
                cells: put_cells(diffs[at].cells, row.cells),
                ..diffs[at]
            },
        )
    } else {
        diffs.insert(at, row)
    }
}

pub open spec fn put_all_purged(diffs: Seq<DiffView>, rows: Seq<DiffView>) -> Seq<DiffView>
    decreases rows.len(),
{
    if rows.len() == 0 {
        diffs
    } else {
        put_purged(put_all_purged(diffs, rows.drop_last()), rows.last())
    }
}

/// What purging leaves of the tables, and what it reports.
#[verifier::ext_equal]
pub struct Purge {
    pub tables: Seq<TableSlot>,
    pub diffs: Seq<DiffView>,
}

/// What removing all tables without data comes to.
pub open spec fn purge_spec(tables: Seq<TableSlot>) -> Purge
    decreases tables.len(),
{
    if tables.len() == 0 {
        Purge { tables, diffs: Seq::empty() }
    } else {
        let rest = purge_spec(tables.drop_last());
        let slot = tables.last();
        if table_has_data(slot.table) {
            Purge { tables: rest.tables.push(slot), ..rest }
        } else {
            Purge {
                diffs: put_all_purged(
                    rest.diffs,
                    bucket_diffs(slot.table.buckets, slot.table.timeline, slot.table.entity_path),
                ),
                ..rest
            }
        }
    }
}

impl IndexedBucketInner {
    /// Whether any cell holds an instance.
    pub fn has_data(&self) -> (r: bool)
        requires
            self.wf(),
        ensures
            r == bucket_has_data(self@),
    {
        let ghost stored = self.stored_rows();
        proof {
            reveal(IndexedBucketInner::wf);
            lemma_ordered(stored);
        }
        let mut k: usize = 0;
        while k < self.columns.len()
            invariant
                k <= self.columns@.len(),
                stored == self.stored_rows(),
                self.aligned(),
                forall|x: BucketRow|
                    #![trigger self@.rows.contains(x)]
                    #![trigger stored.contains(x)]
                    self@.rows.contains(x) <==> stored.contains(x),
                forall|i: int, c: int|
                    0 <= i < stored.len() && 0 <= c < k ==> !holds_instances(
                        #[trigger] stored[i].cells[c],
                    ),
            decreases self.columns@.len() - k,
        {
            let mut i: usize = 0;
            assert(self.columns@[k as int].cells@.len() == self.col_row_id@.len());
            while i < self.col_row_id.len()
                invariant
                    i <= self.col_row_id@.len(),
                    k < self.columns@.len(),
                    self.columns@[k as int].cells@.len() == self.col_row_id@.len(),
                    stored == self.stored_rows(),
                    forall|x: BucketRow|
                        #![trigger self@.rows.contains(x)]
                        #![trigger stored.contains(x)]
                        self@.rows.contains(x) <==> stored.contains(x),
                    forall|j: int|
                        0 <= j < i ==> !holds_instances(#[trigger] stored[j].cells[k as int]),
                decreases self.col_row_id@.len() - i,
            {
                assert(stored[i as int].cells[k as int] == self.columns@[k as int].cells@[i as int]);
                if let Some(cell) = &self.columns[k].cells[i] {
                    if cell.num_instances() > 0 {
                        proof {
                            assert(stored.contains(stored[i as int]));
                            let j = self@.rows.index_of(stored[i as int]);
                            assert(holds_instances(self@.rows[j].cells[k as int]));
                        }
                        return true;
                    }
                }
                i += 1;
            }
            k += 1;
        }
        proof {
            assert forall|i: int, c: int|
                0 <= i < self@.rows.len() && 0 <= c
                    < self@.columns.len() implies !holds_instances(
                #[trigger] self@.rows[i].cells[c],
            ) by {
                assert(self@.rows.contains(self@.rows[i]));
                let j = stored.index_of(self@.rows[i]);
                assert(!holds_instances(stored[j].cells[c]));
            }
        }
        false
    }
}

impl IndexedTable {
    /// Whether any cell holds an instance.
    pub fn has_data(&self) -> (r: bool)
        requires
            self.wf(),
        ensures
            r == table_has_data(self@),
    {
        let mut b: usize = 0;
        while b < self.buckets.len()
            invariant
                b <= self.buckets@.len(),
                forall|b: int|
                    0 <= b < self.buckets@.len() ==> (#[trigger] self.buckets@[b]).inner.wf(),
                forall|c: int|
                    0 <= c < b ==> !bucket_has_data(#[trigger] self@.buckets[c].bucket),
            decreases self.buckets@.len() - b,
        {
            assert(self.buckets@[b as int].inner.wf());
            if self.buckets[b].inner.has_data() {
                assert(bucket_has_data(self@.buckets[b as int].bucket));
                return true;
            }
            assert(!bucket_has_data(self@.buckets[b as int].bucket));
            b += 1;
        }
        false
    }

    /// What is to be reported of all rows if the table is to go.
    fn all_row_diffs(&mut self) -> (r: Vec<StoreDiff>)
        requires
            old(self).wf(),
        ensures
            diff_views(r@) == bucket_diffs(
                old(self)@.buckets,
                old(self)@.timeline,
                old(self)@.entity_path,
            ),
    {
        let ghost all = self@.buckets;
        let mut out: Vec<StoreDiff> = Vec::new();
        let n: usize = self.buckets.len();
        let mut b: usize = 0;
        assert(diff_views(out@) =~= Seq::<DiffView>::empty());
        while b < n
            invariant
                b <= n,
                n == self.buckets@.len(),
                n == all.len(),
                all == old(self)@.buckets,
                self.timeline == old(self).timeline,
                self.entity_path == old(self).entity_path,
                forall|c: int|
                    b <= c < n ==> (#[trigger] self.buckets@[c]).inner.wf() && self.buckets@[c]@
                        == all[c],
                diff_views(out@) == bucket_diffs(
                    all.take(b as int),
                    old(self)@.timeline,
                    old(self)@.entity_path,
                ),
            decreases n - b,
        {
            proof {
                assert(self.buckets@[b as int].inner.wf());
                assert(all.take(b + 1).drop_last() =~= all.take(b as int));
                assert(all.take(b + 1).last() == all[b as int]);
            }
            let mut more = self.buckets[b].inner.sorted_row_diffs(self.timeline, &self.entity_path);
            proof {
                lemma_diff_views_append(out@, more@);
            }
            out.append(&mut more);
            b += 1;
        }
        assert(all.take(b as int) =~= all);
        out
    }
}

/// Takes in cells.
fn put_all_cells(diff: &mut StoreDiff, cells: &Vec<DataCell>)
    ensures
        final(diff)@ == (DiffView { cells: put_cells(old(diff)@.cells, cells@), ..old(diff)@ }),
{
    let mut i: usize = 0;
    while i < cells.len()
        invariant
            i <= cells@.len(),
            diff@ == (DiffView {
                cells: put_cells(old(diff)@.cells, cells@.take(i as int)),
                ..old(diff)@
            }),
        decreases cells@.len() - i,
    {
        assert(cells@.take(i + 1).drop_last() =~= cells@.take(i as int));
        diff.insert(cells[i].clone());
        i += 1;
    }
    assert(cells@.take(i as int) =~= cells@);
}

/// Takes in purged rows.
fn take_in_purged(diffs: &mut Vec<StoreDiff>, rows: Vec<StoreDiff>)
    ensures
        diff_views(final(diffs)@) == put_all_purged(diff_views(old(diffs)@), diff_views(rows@)),
{
    let ghost all = diff_views(rows@);
    let mut i: usize = 0;
    while i < rows.len()
        invariant
            i <= rows@.len(),
            all == diff_views(rows@),
            diff_views(diffs@) == put_all_purged(diff_views(old(diffs)@), all.take(i as int)),
        decreases rows@.len() - i,
    {
        let ghost before = diff_views(diffs@);
        let ghost row = rows@[i as int]@;
        let row_id = rows[i].row_id;
        proof {
            assert(all.take(i + 1).drop_last() =~= all.take(i as int));
            assert(all.take(i + 1).last() == row);
            assert(before.take(before.len() as int) =~= before);
        }
        let mut at: usize = diffs.len();
        while at > 0 && diffs[at - 1].row_id.bits >= row_id.bits
            invariant
                at <= diffs@.len(),
                before == diff_views(diffs@),
                diffs_below(before, row_id) == diffs_below(before.take(at as int), row_id),
            decreases at,
        {
            assert(before.take(at as int).drop_last() =~= before.take(at - 1));
            at -= 1;
        }
        assert(diffs_below(before, row_id) == at);
        if at < diffs.len() && diffs[at].row_id.bits == row_id.bits {
            let mut times = crate::row::clone_times(&rows[i].times);
            diffs[at].times.append(&mut times);
            put_all_cells(&mut diffs[at], &rows[i].cells);
            assert(diff_views(diffs@) =~= put_purged(before, row));
        } else {
            diffs.insert(at, rows[i].clone());
            assert(diff_views(diffs@) =~= before.insert(at as int, row));
        }
        i += 1;
    }
    assert(all.take(i as int) =~= all);
}

proof fn lemma_purge_valid(tables: Seq<TableSlot>, store_insert_ids: bool)
    requires
        tables_valid(tables, store_insert_ids),
    ensures
        tables_valid(purge_spec(tables).tables, store_insert_ids),
        purge_spec(tables).tables.len() <= tables.len(),
        forall|i: int|
            0 <= i < purge_spec(tables).tables.len() ==> tables.contains(
                #[trigger] purge_spec(tables).tables[i],
            ),
    decreases tables.len(),
{
    reveal(tables_valid);
    if tables.len() > 0 {
        let init = tables.drop_last();
        assert forall|a: int, b: int|
            #![trigger init[a], init[b]]
            0 <= a < b < init.len() implies init[a].hash <= init[b].hash
            && !crate::store::is_table_of(
            init[a],
            init[b].hash,
            init[b].table.timeline@,
        ) by {
            assert(tables[a].hash <= tables[b].hash);
        }
        assert forall|i: int| 0 <= i < init.len() implies {
            &&& (#[trigger] init[i]).table.valid()
            &&& crate::path::entity_path_hash(init[i].table.entity_path) == init[i].hash
            &&& init[i].table.store_insert_ids == store_insert_ids
        } by {
            assert(tables[i].table.valid());
        }
        lemma_purge_valid(init, store_insert_ids);
        let rest = purge_spec(init).tables;
        let out = purge_spec(tables).tables;
        assert forall|i: int| 0 <= i < out.len() implies tables.contains(#[trigger] out[i]) by {
            if i < rest.len() {
                assert(init.contains(rest[i]));
                assert(tables[init.index_of(rest[i])] == out[i]);
            } else {
                assert(tables[tables.len() - 1] == out[i]);
            }
        }
        if table_has_data(tables.last().table) {
            assert forall|a: int, b: int|
                #![trigger out[a], out[b]]
                0 <= a < b < out.len() implies out[a].hash <= out[b].hash
                && !crate::store::is_table_of(
                out[a],
                out[b].hash,
                out[b].table.timeline@,
            ) by {
                if b == rest.len() {
                    assert(init.contains(rest[a]));
                    let j = init.index_of(rest[a]);
                    assert(tables[j].hash <= tables[tables.len() - 1].hash);
                } else {
                    assert(rest[a].hash <= rest[b].hash);
                }
            }
            assert forall|i: int| 0 <= i < out.len() implies {
                &&& (#[trigger] out[i]).table.valid()
                &&& crate::path::entity_path_hash(out[i].table.entity_path) == out[i].hash
                &&& out[i].table.store_insert_ids == store_insert_ids
            } by {
                let j = tables.index_of(out[i]);
                assert(tables[j].table.valid());
            }
        }
    }
}

impl DataStore {
    /// Removes all tables whose cells are all empty.
    ///
    /// Returns what was removed, in the order of row ids.
    pub(crate) fn purge_empty_tables(&mut self) -> (r: Vec<StoreDiff>)
        requires
            old(self).wf(),
        ensures
            final(self).wf(),
            final(self).id == old(self).id,
            final(self).config == old(self).config,
            final(self)@ == (StoreView {
                tables: purge_spec(old(self)@.tables).tables,
                ..old(self)@
            }),
            diff_views(r@) == purge_spec(old(self)@.tables).diffs,
    {
        let ghost all = self@.tables;
        let mut diffs: Vec<StoreDiff> = Vec::new();
        let mut at: usize = 0;
        let ghost mut i: int = 0;
        proof {
            lemma_purge_valid(all, self.config.store_insert_ids);
            assert(diff_views(diffs@) =~= Seq::<DiffView>::empty());
            assert(all.take(0) =~= Seq::<TableSlot>::empty());
            assert(slots(self.tables@) =~= purge_spec(all.take(0)).tables + all.skip(0));
        }
        while at < self.tables.len()
            invariant
                0 <= i <= all.len(),
                all == old(self)@.tables,
                at == purge_spec(all.take(i)).tables.len(),
                slots(self.tables@) == purge_spec(all.take(i)).tables + all.skip(i),
                all_tables_wf(self.tables@),
                diff_views(diffs@) == purge_spec(all.take(i)).diffs,
                self.id == old(self).id,
                self.config == old(self).config,
                self.type_registry == old(self).type_registry,
                self.metadata_registry == old(self).metadata_registry,
                self.static_tables == old(self).static_tables,
                self.insert_id == old(self).insert_id,
                self.gc_id == old(self).gc_id,
                self.event_id == old(self).event_id,
            decreases self.tables@.len() - at,
        {
            let ghost before = slots(self.tables@);
            let ghost rest = purge_spec(all.take(i));
            proof {
                assert(before.len() == rest.tables.len() + all.len() - i);
                assert(before[at as int] == all[i]);
                assert(all.take(i + 1).drop_last() =~= all.take(i));
                assert(all.take(i + 1).last() == all[i]);
                assert(self.tables@[at as int].table.wf());
            }
            if self.tables[at].table.has_data() {
                proof {
                    i = i + 1;
                    assert(before =~= rest.tables.push(all[i - 1]) + all.skip(i));
                }
                at += 1;
            } else {
                let mut slot = self.tables.remove(at);
                let rows = slot.table.all_row_diffs();
                take_in_purged(&mut diffs, rows);
                proof {
                    i = i + 1;
                    assert(slots(self.tables@) =~= before.remove(at as int));
                    assert(slots(self.tables@) =~= rest.tables + all.skip(i));
                }
            }
        }
        proof {
            assert(slots(self.tables@).len() == self.tables@.len());
            assert(i == all.len());
            assert(all.take(i) =~= all);
            assert(all.skip(i) =~= Seq::<TableSlot>::empty());
            assert(slots(self.tables@) =~= purge_spec(all).tables);
            assert(self@ =~= StoreView { tables: purge_spec(all).tables, ..old(self)@ });
        }
        diffs
    }
}

} // verus!

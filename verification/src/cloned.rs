//! What a database gives back of static data, and what a clone holds of it and of all other rows.
use crate::bucket::{cell_of, lemma_cell_of_missing};
use crate::clear::{clear_flag, cleared_by};
use crate::entity_db::{paths_valid, DbView};
use crate::ingest::{cascade_rows, row_step, row_step_with, rows_added, Cascade};
use crate::names::{RowId, TIME_STATIC};
use crate::path::entity_path_hash;
use crate::readback::{
    law_queries_find_static_data, law_rows_are_given_back, law_rows_stay_as_they_are,
    lemma_cell_of_last, newer_static,
};
use crate::reports::{
    is_registered_at, law_added_rows_are_registered, rows_registered,
};
use crate::retry::{
    inserted, law_retries_change_only_the_counter, DEFAULT_INSERT_ROW_STEP_SIZE,
    MAX_INSERT_ROW_ATTEMPTS,
};
use crate::row::{
    components_distinct, has_component, timelines_distinct, times_temporal, DataCell, RowView,
};
use crate::store::{
    addition_of, empty_store, in_use, is_registered, lemma_put_static,
    lemma_tables_with, metas_below, put_static, put_statics, registry_valid, slot_index,
    static_cell_of, static_components_distinct, static_entry, static_index, statics_valid,
    statics_with, store_with, table_or_empty, tables_valid, DataStoreConfig, LatestAtQuery,
    RowMeta, StaticCell, StaticSlot, StoreView,
};
use crate::tree::EntityTree;
use crate::upkeep::{
    empty_clone, find_row, lemma_static_cells_distinct, static_cells_of_row, stored_row,
    stored_rows,
};
use vstd::prelude::*;

verus! {

// --- Static cells by row.

proof fn lemma_static_cell_of_last(cells: Seq<StaticCell>, component: Seq<char>)
    requires
        cells.len() > 0,
        static_components_distinct(cells),
    ensures
        static_cell_of(cells, component) == if cells.last().cell.component_name@ == component {
            Some(cells.last())
        } else {
            static_cell_of(cells.drop_last(), component)
        },
    decreases cells.len(),
{
    let init = cells.drop_last();
    if cells.len() > 1 {
        let rest = cells.skip(1);
        assert forall|i: int, j: int|
            #![trigger rest[i], rest[j]]
            0 <= i < j < rest.len() implies rest[i].cell.component_name@
            != rest[j].cell.component_name@ by {
            assert(cells[i + 1].cell.component_name@ != cells[j + 1].cell.component_name@);
        }
        lemma_static_cell_of_last(rest, component);
        assert(rest.drop_last() =~= init.skip(1));
        assert(rest.last() == cells.last());
        assert(init[0] == cells[0]);
        if cells.last().cell.component_name@ == component {
            assert(cells[0].cell.component_name@ != cells[cells.len() - 1].cell.component_name@);
        }
    } else {
        assert(cells.skip(1) =~= Seq::empty());
        assert(init =~= Seq::empty());
    }
}

/// Law: a static cell is among the cells of the row that it came with, and of no other row.
pub proof fn law_static_cells_are_of_one_row(
    cells: Seq<StaticCell>,
    row_id: RowId,
    component: Seq<char>,
)
    requires
        static_components_distinct(cells),
    ensures
        cell_of(static_cells_of_row(cells, row_id), component) == match static_cell_of(
            cells,
            component,
        ) {
            Some(found) if found.row_id == row_id => Some(found.cell),
            _ => None,
        },
    decreases cells.len(),
{
    if cells.len() > 0 {
        let init = cells.drop_last();
        let n = init.len() as int;
        assert forall|i: int, j: int|
            #![trigger init[i], init[j]]
            0 <= i < j < init.len() implies init[i].cell.component_name@
            != init[j].cell.component_name@ by {
            assert(cells[i].cell.component_name@ != cells[j].cell.component_name@);
        }
        law_static_cells_are_of_one_row(init, row_id, component);
        lemma_static_cell_of_last(cells, component);
        let rest = static_cells_of_row(init, row_id);
        let all = static_cells_of_row(cells, row_id);
        if cells.last().cell.component_name@ == component {
            assert(static_cell_of(init, component) is None) by {
                lemma_static_cell_of_missing(init, component);
            }
        }
        if cells.last().row_id == row_id {
            assert(all.drop_last() =~= rest);
            lemma_static_cells_distinct(cells, row_id);
            lemma_cell_of_last(all, component);
        }
    }
}

proof fn lemma_static_cell_of_missing(cells: Seq<StaticCell>, component: Seq<char>)
    requires
        forall|i: int|
            0 <= i < cells.len() ==> (#[trigger] cells[i]).cell.component_name@ != component,
    ensures
        static_cell_of(cells, component) is None,
    decreases cells.len(),
{
    if cells.len() > 0 {
        let rest = cells.skip(1);
        assert forall|i: int| 0 <= i < rest.len() implies (
        #[trigger] rest[i]).cell.component_name@ != component by {
            assert(cells[i + 1].cell.component_name@ != component);
        }
        lemma_static_cell_of_missing(rest, component);
    }
}

proof fn lemma_put_static_distinct(cells: Seq<StaticCell>, row_id: RowId, cell: DataCell)
    requires
        static_components_distinct(cells),
    ensures
        static_components_distinct(put_static(cells, row_id, cell)),
{
    let name = cell.component_name@;
    let out = put_static(cells, row_id, cell);
    if exists|i: int| 0 <= i < cells.len() && (#[trigger] cells[i]).cell.component_name@ == name {
        let i = choose|i: int|
            0 <= i < cells.len() && (#[trigger] cells[i]).cell.component_name@ == name;
        assert forall|j: int| 0 <= j < i implies (#[trigger] cells[j]).cell.component_name@
            != name by {
            assert(cells[j].cell.component_name@ != cells[i].cell.component_name@);
        }
        lemma_put_static(cells, row_id, cell, i);
        assert forall|a: int, b: int|
            #![trigger out[a], out[b]]
            0 <= a < b < out.len() implies out[a].cell.component_name@
            != out[b].cell.component_name@ by {
            assert(cells[a].cell.component_name@ != cells[b].cell.component_name@);
        }
    } else {
        lemma_put_static(cells, row_id, cell, cells.len() as int);
        assert forall|a: int, b: int|
            #![trigger out[a], out[b]]
            0 <= a < b < out.len() implies out[a].cell.component_name@
            != out[b].cell.component_name@ by {
            if b < cells.len() {
                assert(cells[a].cell.component_name@ != cells[b].cell.component_name@);
            } else {
                assert(cells[a].cell.component_name@ != name);
            }
        }
    }
}

proof fn lemma_put_statics_distinct(cells: Seq<StaticCell>, row_id: RowId, more: Seq<DataCell>)
    requires
        static_components_distinct(cells),
    ensures
        static_components_distinct(put_statics(cells, row_id, more)),
    decreases more.len(),
{
    if more.len() > 0 {
        lemma_put_statics_distinct(cells, row_id, more.drop_last());
        lemma_put_static_distinct(
            put_statics(cells, row_id, more.drop_last()),
            row_id,
            more.last(),
        );
    }
}

proof fn lemma_statics_with_valid(statics: Seq<StaticSlot>, row: RowView)
    requires
        statics_valid(statics),
    ensures
        statics_valid(statics_with(statics, row)),
{
    let hash = entity_path_hash(row.entity_path);
    let after = statics_with(statics, row);
    match static_index(statics, hash) {
        Some(i) => {
            assert(static_components_distinct(statics[i].cells));
            lemma_put_statics_distinct(statics[i].cells, row.row_id, row.cells);
            assert forall|a: int, b: int|
                #![trigger after[a], after[b]]
                0 <= a < b < after.len() implies after[a].hash != after[b].hash by {
                assert(statics[a].hash != statics[b].hash);
            }
        },
        None => {
            lemma_put_statics_distinct(Seq::empty(), row.row_id, row.cells);
            assert forall|a: int, b: int|
                #![trigger after[a], after[b]]
                0 <= a < b < after.len() implies after[a].hash != after[b].hash by {
                if b < statics.len() {
                    assert(statics[a].hash != statics[b].hash);
                } else {
                    assert(statics[a].hash != hash);
                }
            }
        },
    }
    assert forall|a: int| 0 <= a < after.len() implies static_components_distinct(
        (#[trigger] after[a]).cells,
    ) by {
        if a < statics.len() {
            assert(static_components_distinct(statics[a].cells));
        }
    }
}

/// The static cell of a component once a row was added.
proof fn lemma_static_entry_after(
    store: StoreView,
    config: DataStoreConfig,
    row: RowView,
    hash: u64,
    component: Seq<char>,
)
    requires
        statics_valid(store.statics),
        components_distinct(row.cells),
    ensures
        statics_valid(store_with(store, config, row).statics),
        static_entry(store_with(store, config, row).statics, hash, component) == match cell_of(
            row.cells,
            component,
        ) {
            Some(cell) if row.times.len() == 0 && hash == entity_path_hash(row.entity_path) => Some(
                newer_static(
                    static_entry(store.statics, hash, component),
                    StaticCell { row_id: row.row_id, cell },
                ),
            ),
            _ => static_entry(store.statics, hash, component),
        },
{
    if row.times.len() == 0 {
        lemma_statics_with_valid(store.statics, row);
        let query = LatestAtQuery {
            timeline: arbitrary(),
            at: crate::names::TimeInt { value: TIME_STATIC },
        };
        let bare = StoreView { tables: Seq::empty(), ..store };
        let after = store_with(bare, config, row);
        law_queries_find_static_data(bare, config, row, query, hash, component);
        assert(after.statics == store_with(store, config, row).statics);
        assert(slot_index(bare.tables, hash, query.timeline@) is None);
        assert(crate::store::tables_with(
            bare.tables,
            config,
            row.times,
            row,
            bare.insert_id,
        ) =~= Seq::empty());
        assert(slot_index(after.tables, hash, query.timeline@) is None);
    }
}

/// Law: a static row that was just added, and whose cells take the place of all others of the same
/// components, is given back with all its cells.
pub proof fn law_static_rows_are_given_back(
    db: DbView,
    config: DataStoreConfig,
    row: RowView,
)
    requires
        statics_valid(db.store.statics),
        components_distinct(row.cells),
        row.times.len() == 0,
        row.cells.len() > 0,
        db.paths.contains_key(entity_path_hash(row.entity_path)),
        forall|component: Seq<char>| #[trigger]
            static_entry(
                db.store.statics,
                entity_path_hash(row.entity_path),
                component,
            ) matches Some(found) ==> found.row_id.bits < row.row_id.bits,
    ensures
        ({
            let hash = entity_path_hash(row.entity_path);
            let after = DbView { store: store_with(db.store, config, row), ..db };
            let meta = RowMeta { row_id: row.row_id, times: row.times, hash };
            &&& stored_row(after, meta) matches Some(found)
            &&& found.row_id == row.row_id
            &&& found.times.len() == 0
            &&& found.entity_path == db.paths[hash]
            &&& forall|component: Seq<char>| #[trigger]
                cell_of(found.cells, component) == cell_of(row.cells, component)
        }),
{
    let hash = entity_path_hash(row.entity_path);
    let statics = store_with(db.store, config, row).statics;
    lemma_static_entry_after(
        db.store,
        config,
        row,
        hash,
        row.cells[0].component_name@,
    );
    let first = row.cells[0].component_name@;
    crate::bucket::lemma_cell_of_found(row.cells, first, 0);
    assert(static_entry(statics, hash, first) is Some);
    let i = static_index(statics, hash)->0;
    let cells = statics[i].cells;
    assert(static_components_distinct(statics[i].cells));
    let found = static_cells_of_row(cells, row.row_id);
    assert forall|component: Seq<char>| #[trigger] cell_of(found, component) == cell_of(
        row.cells,
        component,
    ) by {
        lemma_static_entry_after(db.store, config, row, hash, component);
        law_static_cells_are_of_one_row(cells, row.row_id, component);
        assert(static_entry(statics, hash, component) == static_cell_of(cells, component));
        assert(static_entry(db.store.statics, hash, component) matches Some(other)
            ==> other.row_id.bits < row.row_id.bits);
    }
    assert(cell_of(found, first) is Some);
    if found.len() == 0 {
        assert(cell_of(found, first) is None);
    }
}

// --- Clones.

/// Whether every static cell came with a row that is registered as static.
pub open spec fn statics_registered(store: StoreView) -> bool {
    forall|hash: u64, component: Seq<char>| #[trigger]
        static_entry(store.statics, hash, component) matches Some(found) ==> is_static_row(
            store.registry,
            hash,
            found.row_id,
        )
}

/// Whether a row of an entity is registered as static.
pub open spec fn is_static_row(registry: Seq<RowMeta>, hash: u64, row_id: RowId) -> bool {
    exists|k: int|
        {
            &&& 0 <= k < registry.len()
            &&& (#[trigger] registry[k]).row_id == row_id
            &&& registry[k].hash == hash
            &&& registry[k].times.len() == 0
        }
}

/// Law: adding a row leaves all static cells registered.
pub proof fn law_added_statics_are_registered(
    store: StoreView,
    config: DataStoreConfig,
    row: RowView,
)
    requires
        statics_valid(store.statics),
        statics_registered(store),
        components_distinct(row.cells),
    ensures
        statics_registered(store_with(store, config, row)),
{
    let after = store_with(store, config, row);
    let at = metas_below(store.registry, row.row_id);
    crate::ingest::lemma_metas_below_bounds(store.registry, row.row_id);
    assert forall|hash: u64, component: Seq<char>| #[trigger]
        static_entry(after.statics, hash, component) is Some implies is_static_row(
        after.registry,
        hash,
        static_entry(after.statics, hash, component)->0.row_id,
    ) by {
        let found = static_entry(after.statics, hash, component)->0;
        lemma_static_entry_after(store, config, row, hash, component);
        if static_entry(store.statics, hash, component) == Some(found) {
            let k = choose|k: int|
                {
                    &&& 0 <= k < store.registry.len()
                    &&& (#[trigger] store.registry[k]).row_id == found.row_id
                    &&& store.registry[k].hash == hash
                    &&& store.registry[k].times.len() == 0
                };
            let k2 = if k < at {
                k
            } else {
                k + 1
            };
            assert(after.registry[k2] == store.registry[k]);
        } else {
            assert(after.registry[at].row_id == found.row_id);
        }
    }
}

/// Whether rows can be added one after the other just as they are: their ids are in order, and none
/// of them is a clear.
pub open spec fn can_be_added_as_they_are(rows: Seq<RowView>) -> bool {
    &&& forall|i: int, j: int|
        #![trigger rows[i], rows[j]]
        0 <= i < j < rows.len() ==> rows[i].row_id.bits < rows[j].row_id.bits
    &&& forall|i: int|
        0 <= i < rows.len() ==> {
            &&& timelines_distinct((#[trigger] rows[i]).times)
            &&& times_temporal(rows[i].times)
            &&& components_distinct(rows[i].cells)
            &&& !has_component(rows[i].cells, "rerun.components.ClearIsRecursive"@)
        }
}

/// A store once rows were added to it one after the other.
spec fn all_added(store: StoreView, config: DataStoreConfig, rows: Seq<RowView>) -> StoreView
    decreases rows.len(),
{
    if rows.len() == 0 {
        store
    } else {
        store_with(all_added(store, config, rows.drop_last()), config, rows.last())
    }
}

/// Whether all that is registered is of some rows.
spec fn registers_only(store: StoreView, rows: Seq<RowView>) -> bool {
    forall|k: int|
        0 <= k < store.registry.len() ==> exists|i: int|
            0 <= i < rows.len() && (#[trigger] rows[i]).row_id == (
            #[trigger] store.registry[k]).row_id
}

proof fn lemma_none_in_use(
    store: StoreView,
    config: DataStoreConfig,
    rows: Seq<RowView>,
    row: RowView,
)
    requires
        tables_valid(store.tables, config.store_insert_ids),
        rows_registered(store),
        registers_only(store, rows),
        forall|i: int| 0 <= i < rows.len() ==> (#[trigger] rows[i]).row_id != row.row_id,
    ensures
        !in_use(store, config, row),
{
    let hash = entity_path_hash(row.entity_path);
    if is_registered(store.registry, row.row_id) {
        let k = choose|k: int|
            0 <= k < store.registry.len() && (#[trigger] store.registry[k]).row_id == row.row_id;
        let i = choose|i: int|
            0 <= i < rows.len() && (#[trigger] rows[i]).row_id == store.registry[k].row_id;
        assert(rows[i].row_id != row.row_id);
    }
    assert forall|j: int| 0 <= j < row.times.len() implies !(#[trigger] table_or_empty(
        store.tables,
        hash,
        row.times[j].0,
        row.entity_path,
        config.store_insert_ids,
    )).has_row_id(row.row_id) by {
        let table = table_or_empty(
            store.tables,
            hash,
            row.times[j].0,
            row.entity_path,
            config.store_insert_ids,
        );
        if table.has_row_id(row.row_id) {
            let (b, i) = choose|b: int, i: int|
                0 <= b < table.buckets.len() && 0 <= i < table.buckets[b].bucket.rows.len() && (
                #[trigger] table.buckets[b].bucket.rows[i]).row_id == row.row_id;
            let time = table.buckets[b].bucket.rows[i].time;
            match slot_index(store.tables, hash, row.times[j].0@) {
                Some(t) => {
                    assert(0 <= t < store.tables.len() && crate::store::is_table_of(
                        store.tables[t],
                        hash,
                        row.times[j].0@,
                    ));
                    assert(store.tables[t].table.has_row(row.row_id, time));
                    assert(is_registered_at(
                        store.registry,
                        store.tables[t],
                        row.row_id,
                        time,
                    ));
                    let (k, m) = choose|k: int, m: int|
                        0 <= k < store.registry.len() && store.registry[k].row_id == row.row_id
                            && store.registry[k].hash == store.tables[t].hash && 0 <= m
                            < store.registry[k].times.len() && (
                        #[trigger] store.registry[k].times[m]).0@
                            == store.tables[t].table.timeline@ && store.registry[k].times[m].1.value
                            == time;
                    assert(store.registry[k].row_id == row.row_id);
                },
                None => {
                    assert(table.buckets[b].bucket.rows.len() == 0);
                },
            }
        }
    }
}

/// What adding rows to an empty database comes to.
proof fn lemma_added_as_they_are(
    before: DbView,
    config: DataStoreConfig,
    rows: Seq<RowView>,
    after: DbView,
)
    requires
        rows_added(before, config, rows, after, None),
        before.store == empty_store(),
        can_be_added_as_they_are(rows),
    ensures
        after.store == all_added(empty_store(), config, rows),
        tables_valid(after.store.tables, config.store_insert_ids),
        rows_registered(after.store),
        registers_only(after.store, rows),
        statics_valid(after.store.statics),
    decreases rows.len(),
{
    if rows.len() == 0 {
        assert(tables_valid(after.store.tables, config.store_insert_ids)) by {
            reveal(tables_valid);
        }
    } else {
        let init = rows.drop_last();
        let n = init.len() as int;
        let row = rows[n];
        let mid = choose|mid: DbView|
            rows_added(before, config, init, mid, None) && #[trigger] row_step(
                mid,
                config,
                rows.last(),
                after,
                None,
            );
        assert forall|i: int, j: int|
            #![trigger init[i], init[j]]
            0 <= i < j < init.len() implies init[i].row_id.bits < init[j].row_id.bits by {
            assert(rows[i].row_id.bits < rows[j].row_id.bits);
        }
        assert forall|i: int| 0 <= i < init.len() implies {
            &&& timelines_distinct((#[trigger] init[i]).times)
            &&& times_temporal(init[i].times)
            &&& components_distinct(init[i].cells)
            &&& !has_component(init[i].cells, "rerun.components.ClearIsRecursive"@)
        } by {
            assert(timelines_distinct(rows[i].times));
        }
        lemma_added_as_they_are(before, config, init, mid);
        assert forall|i: int| 0 <= i < init.len() implies (#[trigger] init[i]).row_id
            != row.row_id by {
            assert(rows[i].row_id.bits < rows[n].row_id.bits);
        }
        assert(timelines_distinct(rows[n].times));
        lemma_none_in_use(mid.store, config, init, row);
        lemma_step_as_it_is(mid, config, row, after);
        lemma_tables_with(mid.store.tables, config, row.times, row, mid.store.insert_id);
        law_added_rows_are_registered(mid.store, config, row);
        lemma_static_entry_after(mid.store, config, row, 0, Seq::empty());
        let at = metas_below(mid.store.registry, row.row_id);
        crate::ingest::lemma_metas_below_bounds(mid.store.registry, row.row_id);
        assert forall|k: int| 0 <= k < after.store.registry.len() implies exists|i: int|
            0 <= i < rows.len() && (#[trigger] rows[i]).row_id == (
            #[trigger] after.store.registry[k]).row_id by {
            if k == at {
                assert(rows[n].row_id == after.store.registry[k].row_id);
            } else {
                let k0 = if k < at {
                    k
                } else {
                    k - 1
                };
                assert(after.store.registry[k] == mid.store.registry[k0]);
                let i = choose|i: int|
                    0 <= i < init.len() && (#[trigger] init[i]).row_id
                        == mid.store.registry[k0].row_id;
                assert(rows[i] == init[i]);
            }
        }
    }
}

/// A row whose id is free and that is no clear is added as it is, and nothing else is.
proof fn lemma_step_as_it_is(
    before: DbView,
    config: DataStoreConfig,
    row: RowView,
    after: DbView,
)
    requires
        row_step(before, config, row, after, None),
        !in_use(before.store, config, row),
        !has_component(row.cells, "rerun.components.ClearIsRecursive"@),
    ensures
        after.store == store_with(before.store, config, row),
{
    let (randoms, tree, more, now) = choose|
        randoms: Seq<u64>,
        tree: EntityTree,
        more: Seq<Seq<Seq<u64>>>,
        now: Option<u64>,
    | #[trigger]
        row_step_with(before, config, row, after, None, randoms, tree, more, now);
    law_retries_change_only_the_counter(
        before.store,
        config,
        row,
        MAX_INSERT_ROW_ATTEMPTS as nat,
        DEFAULT_INSERT_ROW_STEP_SIZE,
        randoms,
    );
    let first = inserted(
        before.store,
        config,
        row,
        MAX_INSERT_ROW_ATTEMPTS as nat,
        DEFAULT_INSERT_ROW_STEP_SIZE,
        randoms,
    );
    lemma_cell_of_missing(row.cells, "rerun.components.ClearIsRecursive"@);
    assert(clear_flag(row.cells) is None);
    assert(cleared_by(tree, addition_of(row)) =~= Seq::empty());
    assert(cascade_rows(
        Cascade { store: first.store, row_id: RowId { bits: 0 }, diffs: Seq::empty() },
        config,
        first.store.types,
        cleared_by(tree, addition_of(row)),
        more,
    ).store == first.store);
}

/// Whether a row holds a static cell of a component of an entity.
spec fn holds_static(row: RowView, hash: u64, component: Seq<char>) -> bool {
    row.times.len() == 0 && entity_path_hash(row.entity_path) == hash && cell_of(
        row.cells,
        component,
    ) is Some
}

/// Of static cells of the same component, the one of the last row stays.
proof fn lemma_last_static_stays(
    config: DataStoreConfig,
    rows: Seq<RowView>,
    hash: u64,
    component: Seq<char>,
)
    requires
        forall|i: int, j: int|
            #![trigger rows[i], rows[j]]
            0 <= i < j < rows.len() ==> rows[i].row_id.bits < rows[j].row_id.bits,
        forall|i: int| 0 <= i < rows.len() ==> components_distinct((#[trigger] rows[i]).cells),
    ensures
        statics_valid(all_added(empty_store(), config, rows).statics),
        match static_entry(
            all_added(empty_store(), config, rows).statics,
            hash,
            component,
        ) {
            Some(found) => exists|i: int|
                {
                    &&& 0 <= i < rows.len()
                    &&& holds_static(#[trigger] rows[i], hash, component)
                    &&& found == (StaticCell {
                        row_id: rows[i].row_id,
                        cell: cell_of(rows[i].cells, component)->0,
                    })
                },
            None => forall|i: int|
                0 <= i < rows.len() ==> !holds_static(#[trigger] rows[i], hash, component),
        },
    decreases rows.len(),
{
    if rows.len() > 0 {
        let init = rows.drop_last();
        let n = init.len() as int;
        assert forall|i: int, j: int|
            #![trigger init[i], init[j]]
            0 <= i < j < init.len() implies init[i].row_id.bits < init[j].row_id.bits by {
            assert(rows[i].row_id.bits < rows[j].row_id.bits);
        }
        assert forall|i: int| 0 <= i < init.len() implies components_distinct(
            (#[trigger] init[i]).cells,
        ) by {
            assert(components_distinct(rows[i].cells));
        }
        lemma_last_static_stays(config, init, hash, component);
        let st = all_added(empty_store(), config, init);
        assert(components_distinct(rows[n].cells));
        lemma_static_entry_after(st, config, rows[n], hash, component);
        match static_entry(st.statics, hash, component) {
            Some(found) => {
                let i = choose|i: int|
                    {
                        &&& 0 <= i < init.len()
                        &&& holds_static(#[trigger] init[i], hash, component)
                        &&& found == (StaticCell {
                            row_id: init[i].row_id,
                            cell: cell_of(init[i].cells, component)->0,
                        })
                    };
                assert(rows[i] == init[i]);
                assert(rows[i].row_id.bits < rows[n].row_id.bits);
                if holds_static(rows[n], hash, component) {
                    assert(holds_static(rows[n], hash, component));
                }
            },
            None => {
                assert forall|i: int| 0 <= i < n implies !holds_static(
                    #[trigger] rows[i],
                    hash,
                    component,
                ) by {
                    assert(!holds_static(init[i], hash, component));
                }
                if holds_static(rows[n], hash, component) {
                    assert(holds_static(rows[n], hash, component));
                }
            },
        }
    } else {
        assert(static_index(Seq::<StaticSlot>::empty(), hash) is None);
    }
}

/// Where what is left of registered rows is found.
proof fn lemma_stored_rows(db: DbView, registry: Seq<RowMeta>)
    requires
        registry_valid(registry),
    ensures
        forall|k: int|
            0 <= k < registry.len() && stored_row(db, #[trigger] registry[k]) is Some
                ==> stored_rows(db, registry).contains(stored_row(db, registry[k])->0),
        forall|i: int|
            0 <= i < stored_rows(db, registry).len() ==> exists|k: int|
                0 <= k < registry.len() && stored_row(db, #[trigger] registry[k]) == Some(
                    #[trigger] stored_rows(db, registry)[i],
                ),
        forall|i: int, j: int|
            #![trigger stored_rows(db, registry)[i], stored_rows(db, registry)[j]]
            0 <= i < j < stored_rows(db, registry).len() ==> stored_rows(
                db,
                registry,
            )[i].row_id.bits < stored_rows(db, registry)[j].row_id.bits,
    decreases registry.len(),
{
    if registry.len() > 0 {
        let init = registry.drop_last();
        let n = init.len() as int;
        let rest = stored_rows(db, init);
        let all = stored_rows(db, registry);
        assert(registry_valid(init)) by {
            assert forall|i: int, j: int|
                #![trigger init[i], init[j]]
                0 <= i < j < init.len() implies init[i].row_id.bits < init[j].row_id.bits by {
                assert(registry[i].row_id.bits < registry[j].row_id.bits);
            }
            assert forall|i: int| 0 <= i < init.len() implies timelines_distinct(
                (#[trigger] init[i]).times,
            ) && times_temporal(init[i].times) by {
                assert(timelines_distinct(registry[i].times));
            }
        }
        lemma_stored_rows(db, init);
        assert forall|k: int|
            0 <= k < registry.len() && stored_row(
                db,
                #[trigger] registry[k],
            ) is Some implies all.contains(stored_row(db, registry[k])->0) by {
            let row = stored_row(db, registry[k])->0;
            if k < n {
                assert(registry[k] == init[k]);
                assert(rest.contains(row));
                assert(all[rest.index_of(row)] == row);
            } else {
                assert(all[all.len() - 1] == row);
            }
        }
        assert forall|i: int| 0 <= i < all.len() implies exists|k: int|
            0 <= k < registry.len() && stored_row(db, #[trigger] registry[k]) == Some(
                #[trigger] all[i],
            ) by {
            if i < rest.len() {
                assert(all[i] == rest[i]);
                let k = choose|k: int|
                    0 <= k < init.len() && stored_row(db, #[trigger] init[k]) == Some(rest[i]);
                assert(registry[k] == init[k]);
            } else {
                assert(stored_row(db, registry[n]) == Some(all[i]));
            }
        }
        assert forall|i: int, j: int|
            #![trigger all[i], all[j]]
            0 <= i < j < all.len() implies all[i].row_id.bits < all[j].row_id.bits by {
            if j < rest.len() {
                assert(rest[i].row_id.bits < rest[j].row_id.bits);
            } else {
                assert(rest[i] == all[i]);
                let k = choose|k: int|
                    0 <= k < init.len() && stored_row(db, #[trigger] init[k]) == Some(rest[i]);
                assert(init[k].row_id == rest[i].row_id);
                assert(registry[k].row_id.bits < registry[n].row_id.bits);
            }
        }
    }
}

/// Law: a clone has the same static cells as what it is a clone of, of all components of all
/// entities, each from a row of the same id. So it answers every query for static data alike. This
/// is about data without clears.
pub proof fn law_clones_hold_the_same_static_data(
    db: DbView,
    config: DataStoreConfig,
    after: DbView,
    hash: u64,
    component: Seq<char>,
)
    requires
        statics_valid(db.store.statics),
        registry_valid(db.store.registry),
        statics_registered(db.store),
        paths_valid(db.paths),
        forall|k: int|
            0 <= k < db.store.registry.len() ==> db.paths.contains_key(
                (#[trigger] db.store.registry[k]).hash,
            ),
        can_be_added_as_they_are(stored_rows(db, db.store.registry)),
        rows_added(
            empty_clone(db.latest_row_id),
            config,
            stored_rows(db, db.store.registry),
            after,
            None,
        ),
    ensures
        static_entry(after.store.statics, hash, component) == static_entry(
            db.store.statics,
            hash,
            component,
        ),
{
    let registry = db.store.registry;
    let rows = stored_rows(db, registry);
    lemma_added_as_they_are(empty_clone(db.latest_row_id), config, rows, after);
    assert forall|i: int| 0 <= i < rows.len() implies components_distinct(
        (#[trigger] rows[i]).cells,
    ) by {
        assert(timelines_distinct(rows[i].times));
    }
    lemma_last_static_stays(config, rows, hash, component);
    lemma_stored_rows(db, registry);
    // Every row that holds such a cell has it from the one static cell that there is.
    assert forall|i: int|
        0 <= i < rows.len() && holds_static(#[trigger] rows[i], hash, component) implies static_entry(
        db.store.statics,
        hash,
        component,
    ) == Some(
        StaticCell { row_id: rows[i].row_id, cell: cell_of(rows[i].cells, component)->0 },
    ) by {
        let k = choose|k: int|
            0 <= k < registry.len() && stored_row(db, #[trigger] registry[k]) == Some(rows[i]);
        let meta = registry[k];
        assert(db.paths.contains_key(meta.hash));
        if meta.times.len() > 0 {
            lemma_found_somewhere(db, meta);
        }
        let s = static_index(db.store.statics, meta.hash)->0;
        assert(static_components_distinct(db.store.statics[s].cells));
        law_static_cells_are_of_one_row(db.store.statics[s].cells, meta.row_id, component);
    }
    match static_entry(db.store.statics, hash, component) {
        Some(found) => {
            let k = choose|k: int|
                {
                    &&& 0 <= k < registry.len()
                    &&& (#[trigger] registry[k]).row_id == found.row_id
                    &&& registry[k].hash == hash
                    &&& registry[k].times.len() == 0
                };
            let s = static_index(db.store.statics, hash)->0;
            let cells = db.store.statics[s].cells;
            assert(static_components_distinct(db.store.statics[s].cells));
            law_static_cells_are_of_one_row(cells, found.row_id, component);
            let own = static_cells_of_row(cells, found.row_id);
            assert(cell_of(own, component) == Some(found.cell));
            assert(own.len() > 0);
            assert(db.paths.contains_key(registry[k].hash));
            let row = stored_row(db, registry[k])->0;
            assert(rows.contains(row));
            let i = rows.index_of(row);
            assert(holds_static(rows[i], hash, component));
        },
        None => {},
    }
}

/// What is found of a row that is not static has a time.
proof fn lemma_found_somewhere(db: DbView, meta: RowMeta)
    requires
        meta.times.len() > 0,
        stored_row(db, meta) is Some,
    ensures
        stored_row(db, meta)->0.times.len() > 0,
{
    lemma_found_with_time(db.store, meta, meta.times);
}

proof fn lemma_found_with_time(
    store: StoreView,
    meta: RowMeta,
    times: Seq<(crate::names::Timeline, crate::names::TimeInt)>,
)
    ensures
        find_row(store, meta, times).cells is Some ==> find_row(store, meta, times).times.len() > 0,
    decreases times.len(),
{
    if times.len() > 0 {
        lemma_found_with_time(store, meta, times.drop_last());
    }
}

// --- What is not static.

/// Whether all of a row is found in a store: at all of its times, and with all of its cells.
pub open spec fn is_all_there(store: StoreView, row: RowView) -> bool {
    let found = find_row(
        store,
        RowMeta {
            row_id: row.row_id,
            times: row.times,
            hash: entity_path_hash(row.entity_path),
        },
        row.times,
    );
    &&& found.times == row.times
    &&& found.cells matches Some(cells)
    &&& forall|name: Seq<char>| #[trigger] cell_of(cells, name) == cell_of(row.cells, name)
}

/// What was added one after the other is all there.
proof fn lemma_all_there(
    before: DbView,
    config: DataStoreConfig,
    rows: Seq<RowView>,
    after: DbView,
    i: int,
)
    requires
        rows_added(before, config, rows, after, None),
        before.store == empty_store(),
        can_be_added_as_they_are(rows),
        0 <= i < rows.len(),
        rows[i].times.len() > 0,
    ensures
        is_all_there(after.store, rows[i]),
    decreases rows.len(),
{
    let init = rows.drop_last();
    let n = init.len() as int;
    let row = rows[n];
    let mid = choose|mid: DbView|
        rows_added(before, config, init, mid, None) && #[trigger] row_step(
            mid,
            config,
            rows.last(),
            after,
            None,
        );
    assert forall|i: int, j: int|
        #![trigger init[i], init[j]]
        0 <= i < j < init.len() implies init[i].row_id.bits < init[j].row_id.bits by {
        assert(rows[i].row_id.bits < rows[j].row_id.bits);
    }
    assert forall|i: int| 0 <= i < init.len() implies {
        &&& timelines_distinct((#[trigger] init[i]).times)
        &&& times_temporal(init[i].times)
        &&& components_distinct(init[i].cells)
        &&& !has_component(init[i].cells, "rerun.components.ClearIsRecursive"@)
    } by {
        assert(timelines_distinct(rows[i].times));
    }
    lemma_added_as_they_are(before, config, init, mid);
    assert forall|i: int| 0 <= i < init.len() implies (#[trigger] init[i]).row_id
        != row.row_id by {
        assert(rows[i].row_id.bits < rows[n].row_id.bits);
    }
    assert(timelines_distinct(rows[n].times));
    lemma_none_in_use(mid.store, config, init, row);
    lemma_step_as_it_is(mid, config, row, after);
    if i < n {
        lemma_all_there(before, config, init, mid, i);
        assert(rows[i].row_id.bits < rows[n].row_id.bits);
        assert(times_temporal(rows[i].times));
        law_rows_stay_as_they_are(
            mid.store,
            config,
            row,
            RowMeta {
                row_id: rows[i].row_id,
                times: rows[i].times,
                hash: entity_path_hash(rows[i].entity_path),
            },
            rows[i].times,
        );
    } else {
        law_rows_are_given_back(mid.store, config, row);
    }
}

/// Law: a clone has every row that is in what it is a clone of, at all the times and with all the
/// cells that are found of it there. This is about rows that are not static, and about data without
/// clears.
pub proof fn law_clones_hold_the_same_rows(
    db: DbView,
    config: DataStoreConfig,
    after: DbView,
    k: int,
)
    requires
        registry_valid(db.store.registry),
        paths_valid(db.paths),
        can_be_added_as_they_are(stored_rows(db, db.store.registry)),
        rows_added(
            empty_clone(db.latest_row_id),
            config,
            stored_rows(db, db.store.registry),
            after,
            None,
        ),
        0 <= k < db.store.registry.len(),
        db.paths.contains_key(db.store.registry[k].hash),
        find_row(db.store, db.store.registry[k], db.store.registry[k].times).cells is Some,
    ensures
        ({
            let meta = db.store.registry[k];
            let found = find_row(db.store, meta, meta.times);
            is_all_there(
                after.store,
                RowView {
                    row_id: meta.row_id,
                    times: found.times,
                    entity_path: db.paths[meta.hash],
                    cells: found.cells->0,
                },
            )
        }),
{
    let registry = db.store.registry;
    let rows = stored_rows(db, registry);
    let meta = registry[k];
    lemma_stored_rows(db, registry);
    let row = stored_row(db, registry[k])->0;
    assert(rows.contains(row));
    let i = rows.index_of(row);
    lemma_found_somewhere(db, meta);
    lemma_all_there(empty_clone(db.latest_row_id), config, rows, after, i);
}

} // verus!

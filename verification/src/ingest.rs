//! Adding data to a database, and the clears that it sets off.
use crate::clear::{
    cleared_by, cleared_by_all, cleared_entity_views, entities_in_order, ClearCascade,
    ClearedEntity, ClearedEntityView, ClearedRowView,
};
use crate::entity_db::{
    path_registered, samples_after, samples_with, DbView, EntityDb, SetStoreInfo, StoreInfo,
};
use crate::gc::clock_now;
use crate::names::{ComponentName, RowId, StoreId, TWO_POW_64};
use crate::path::{entity_path_hash, entity_path_parts, path_before};
use crate::retry::{
    insert_row_with_retries, inserted, is_addition_event, DEFAULT_INSERT_ROW_STEP_SIZE,
    MAX_INSERT_ROW_ATTEMPTS,
};
use crate::row::{
    components_distinct, event_diffs, timelines_distinct, times_temporal, DataCell, DataRow,
    DataType, DiffView, RowView, StoreEvent,
};
use crate::store::{
    addition_of, is_registered, metas_below, type_of, DataStore, DataStoreConfig, RowMeta,
    StoreView, WriteError,
};
use crate::times::{histograms_after, times_after};
use crate::tree::{tree_after, EntityTree};
use re_log_types::EntityPath;
use vstd::prelude::*;

verus! {

/// The empty cells that clear some components; a component of unknown type has none.
pub open spec fn cleared_cells(
    types: Seq<(ComponentName, DataType)>,
    components: Seq<ComponentName>,
) -> Seq<DataCell>
    decreases components.len(),
{
    if components.len() == 0 {
        Seq::empty()
    } else {
        let rest = cleared_cells(types, components.drop_last());
        let name = components.last();
        match type_of(types, name@) {
            Some(datatype) => rest.push(DataCell::empty_spec(name, datatype)),
            None => rest,
        }
    }
}

/// Where a cascade of clears has got to.
#[verifier::ext_equal]
pub struct Cascade {
    pub store: StoreView,
    /// The id for the next row.
    pub row_id: RowId,
    pub diffs: Seq<DiffView>,
}

/// Adds the empty cells of an entity, all in one row; the row after it gets the next id.
pub open spec fn cascade_entity(
    at: Cascade,
    config: DataStoreConfig,
    types: Seq<(ComponentName, DataType)>,
    entity: ClearedEntityView,
    randoms: Seq<u64>,
) -> Cascade {
    let row = RowView {
        row_id: at.row_id,
        times: entity.times,
        entity_path: entity.entity_path,
        cells: cleared_cells(types, entity.components),
    };
    if !components_distinct(row.cells) {
        at
    } else {
        let end = inserted(
            at.store,
            config,
            row,
            MAX_INSERT_ROW_ATTEMPTS as nat,
            DEFAULT_INSERT_ROW_STEP_SIZE,
            randoms,
        );
        match end.outcome {
            Ok(added) => Cascade {
                store: end.store,
                row_id: added.row_id.plus(1),
                diffs: at.diffs.push(addition_of(added)),
            },
            Err(_) => Cascade { store: end.store, ..at },
        }
    }
}

/// Adds the empty cells of several entities, one after the other.
pub open spec fn cascade_entities(
    at: Cascade,
    config: DataStoreConfig,
    types: Seq<(ComponentName, DataType)>,
    entities: Seq<ClearedEntityView>,
    randoms: Seq<Seq<u64>>,
) -> Cascade
    decreases entities.len(),
{
    if entities.len() == 0 {
        at
    } else {
        cascade_entity(
            cascade_entities(at, config, types, entities.drop_last(), randoms),
            config,
            types,
            entities.last(),
            randoms[entities.len() - 1],
        )
    }
}

/// Adds the empty cells that several rows ask for. Each row starts over with its own id.
pub open spec fn cascade_rows(
    at: Cascade,
    config: DataStoreConfig,
    types: Seq<(ComponentName, DataType)>,
    rows: Seq<ClearedRowView>,
    randoms: Seq<Seq<Seq<u64>>>,
) -> Cascade
    decreases rows.len(),
{
    if rows.len() == 0 {
        at
    } else {
        let st = cascade_rows(at, config, types, rows.drop_last(), randoms);
        cascade_entities(
            Cascade { row_id: rows.last().row_id, ..st },
            config,
            types,
            rows.last().entities,
            randoms[rows.len() - 1],
        )
    }
}

proof fn lemma_cascade_entities_prefix(
    at: Cascade,
    config: DataStoreConfig,
    types: Seq<(ComponentName, DataType)>,
    entities: Seq<ClearedEntityView>,
    a: Seq<Seq<u64>>,
    b: Seq<Seq<u64>>,
)
    requires
        entities.len() <= a.len(),
        entities.len() <= b.len(),
        forall|i: int| 0 <= i < entities.len() ==> a[i] == b[i],
    ensures
        cascade_entities(at, config, types, entities, a) == cascade_entities(
            at,
            config,
            types,
            entities,
            b,
        ),
    decreases entities.len(),
{
    if entities.len() > 0 {
        lemma_cascade_entities_prefix(at, config, types, entities.drop_last(), a, b);
    }
}

proof fn lemma_cascade_rows_prefix(
    at: Cascade,
    config: DataStoreConfig,
    types: Seq<(ComponentName, DataType)>,
    rows: Seq<ClearedRowView>,
    a: Seq<Seq<Seq<u64>>>,
    b: Seq<Seq<Seq<u64>>>,
)
    requires
        rows.len() <= a.len(),
        rows.len() <= b.len(),
        forall|i: int| 0 <= i < rows.len() ==> a[i] == b[i],
    ensures
        cascade_rows(at, config, types, rows, a) == cascade_rows(at, config, types, rows, b),
    decreases rows.len(),
{
    if rows.len() > 0 {
        lemma_cascade_rows_prefix(at, config, types, rows.drop_last(), a, b);
    }
}

/// Whether the times of all events are proper ones.
pub open spec fn events_proper(events: Seq<StoreEvent>) -> bool {
    forall|i: int|
        0 <= i < events.len() ==> timelines_distinct((#[trigger] events[i]).diff.times@)
            && times_temporal(events[i].diff.times@)
}

impl DataStore {
    /// The empty cells that clear some components.
    fn make_cleared_cells(&self, components: &Vec<ComponentName>) -> (r: Vec<DataCell>)
        ensures
            r@ == cleared_cells(self@.types, components@),
    {
        let mut cells: Vec<DataCell> = Vec::new();
        let mut i: usize = 0;
        while i < components.len()
            invariant
                i <= components@.len(),
                cells@ == cleared_cells(self@.types, components@.take(i as int)),
            decreases components@.len() - i,
        {
            assert(components@.take(i + 1).drop_last() =~= components@.take(i as int));
            let name = components[i];
            if let Some(datatype) = self.lookup_datatype(&name) {
                cells.push(DataCell::from_arrow_empty(name, datatype));
            }
            i += 1;
        }
        assert(components@.take(i as int) =~= components@);
        cells
    }
}

/// An entity to be cleared, with the cells that clear it.
struct PendingClear {
    entity: ClearedEntity,
    cells: Vec<DataCell>,
}

/// A row that clears entities, with the cells that clear them.
struct PendingRow {
    row_id: RowId,
    entities: Vec<PendingClear>,
}

spec fn pending_matches(
    pending: Seq<PendingClear>,
    entities: Seq<ClearedEntityView>,
    types: Seq<(ComponentName, DataType)>,
) -> bool {
    &&& pending.len() == entities.len()
    &&& forall|i: int|
        #![trigger pending[i]]
        0 <= i < pending.len() ==> {
            &&& pending[i].entity@ == entities[i]
            &&& pending[i].cells@ == cleared_cells(types, entities[i].components)
            &&& pending[i].entity.timepoint.wf()
        }
}

spec fn pending_rows_match(
    pending: Seq<PendingRow>,
    rows: Seq<ClearedRowView>,
    types: Seq<(ComponentName, DataType)>,
) -> bool {
    &&& pending.len() == rows.len()
    &&& forall|i: int|
        #![trigger pending[i]]
        0 <= i < pending.len() ==> pending[i].row_id == rows[i].row_id && pending_matches(
            pending[i].entities@,
            rows[i].entities,
            types,
        )
}

impl EntityDb {
    /// Makes the empty cells that are to be inserted.
    fn pending_clears(&self, clear_cascade: ClearCascade) -> (r: Vec<PendingRow>)
        requires
            clear_cascade.wf(),
        ensures
            pending_rows_match(r@, clear_cascade@, self@.store.types),
    {
        let ghost types = self@.store.types;
        let ghost all = clear_cascade@;
        let mut rest = clear_cascade.to_be_cleared;
        let ghost given = rest@;
        let mut pending: Vec<PendingRow> = Vec::new();
        let n: usize = rest.len();
        let mut r: usize = 0;
        while r < n
            invariant
                r <= n,
                n == given.len(),
                n == all.len(),
                given == clear_cascade.to_be_cleared@,
                all == clear_cascade@,
                clear_cascade.wf(),
                types == self@.store.types,
                rest@ == given.skip(r as int),
                pending_rows_match(pending@, all.take(r as int), types),
            decreases n - r,
        {
            let row = rest.remove(0);
            assert(row == given[r as int]);
            assert(rest@ =~= given.skip(r + 1));
            let ghost entities_given = row.entities@;
            let ghost entities_view = cleared_entity_views(entities_given);
            let mut entities = row.entities;
            let m: usize = entities.len();
            let mut clears: Vec<PendingClear> = Vec::new();
            let mut e: usize = 0;
            while e < m
                invariant
                    e <= m,
                    m == entities_given.len(),
                    r < n,
                    n == given.len(),
                    given == clear_cascade.to_be_cleared@,
                    clear_cascade.wf(),
                    entities_given == given[r as int].entities@,
                    entities_view == cleared_entity_views(entities_given),
                    types == self@.store.types,
                    entities@ == entities_given.skip(e as int),
                    pending_matches(clears@, entities_view.take(e as int), types),
                decreases m - e,
            {
                let entity = entities.remove(0);
                proof {
                    assert(entity == entities_given[e as int]);
                    assert(entities@ =~= entities_given.skip(e + 1));
                    assert(clear_cascade.to_be_cleared@[r as int].entities@[e as int].timepoint.wf());
                }
                let cells = self.data_store.make_cleared_cells(&entity.components);
                let ghost before = clears@;
                clears.push(PendingClear { entity, cells });
                e += 1;
                proof {
                    assert forall|i: int|
                        #![trigger clears@[i]]
                        0 <= i < clears@.len() implies {
                        &&& clears@[i].entity@ == entities_view.take(e as int)[i]
                        &&& clears@[i].cells@ == cleared_cells(
                            types,
                            entities_view.take(e as int)[i].components,
                        )
                        &&& clears@[i].entity.timepoint.wf()
                    } by {
                        if i < e - 1 {
                            assert(clears@[i] == before[i]);
                            assert(entities_view.take(e - 1)[i] == entities_view.take(e as int)[i]);
                        }
                    }
                }
            }
            assert(entities_view.take(e as int) =~= entities_view);
            let ghost before = pending@;
            pending.push(PendingRow { row_id: row.row_id, entities: clears });
            r += 1;
            proof {
                assert forall|i: int|
                    #![trigger pending@[i]]
                    0 <= i < pending@.len() implies pending@[i].row_id == all.take(
                    r as int,
                )[i].row_id && pending_matches(
                    pending@[i].entities@,
                    all.take(r as int)[i].entities,
                    types,
                ) by {
                    if i < r - 1 {
                        assert(pending@[i] == before[i]);
                        assert(all.take(r - 1)[i] == all.take(r as int)[i]);
                    }
                }
            }
        }
        assert(all.take(r as int) =~= all);
        pending
    }
}

/// Adds the rows that clear entities, starting with a given id.
fn insert_pending(
    store: &mut DataStore,
    row_id: RowId,
    pending: Vec<PendingClear>,
    events: &mut Vec<StoreEvent>,
    entities: Ghost<Seq<ClearedEntityView>>,
    types: Ghost<Seq<(ComponentName, DataType)>>,
)
    requires
        old(store).wf(),
        pending_matches(pending@, entities@, types@),
        events_proper(old(events)@),
    ensures
        final(store).wf(),
        final(store).id == old(store).id,
        final(store).config == old(store).config,
        events_proper(final(events)@),
        exists|randoms: Seq<Seq<u64>>|
            ({
                let end = #[trigger] cascade_entities(
                    Cascade {
                        store: old(store)@,
                        row_id,
                        diffs: event_diffs(old(events)@),
                    },
                    old(store).config,
                    types@,
                    entities@,
                    randoms,
                );
                &&& final(store)@ == end.store
                &&& event_diffs(final(events)@) == end.diffs
            }),
{
    let ghost config = store.config;
    let ghost start = Cascade { store: store@, row_id, diffs: event_diffs(events@) };
    let ghost all = entities@;
    let ghost given = pending@;
    let mut rest = pending;
    let mut row_id: RowId = row_id;
    let ghost mut draws: Seq<Seq<u64>> = Seq::empty();
    let n: usize = rest.len();
    let mut i: usize = 0;
    while i < n
        invariant
            i <= n,
            n == given.len(),
            n == all.len(),
            all == entities@,
            pending_matches(given, all, types@),
            rest@ == given.skip(i as int),
            store.wf(),
            store.id == old(store).id,
            store.config == config,
            config == old(store).config,
            events_proper(events@),
            draws.len() == i,
            ({
                let at = cascade_entities(start, config, types@, all.take(i as int), draws);
                &&& store@ == at.store
                &&& row_id == at.row_id
                &&& event_diffs(events@) == at.diffs
            }),
        decreases n - i,
    {
        let ghost at = cascade_entities(start, config, types@, all.take(i as int), draws);
        let next = rest.remove(0);
        proof {
            assert(next == given[i as int]);
            assert(rest@ =~= given.skip(i + 1));
            assert(all.take(i + 1).drop_last() =~= all.take(i as int));
            assert(all.take(i + 1).last() == all[i as int]);
        }
        let ghost entity = all[i as int];
        let ghost row_view = RowView {
            row_id,
            times: entity.times,
            entity_path: entity.entity_path,
            cells: cleared_cells(types@, entity.components),
        };
        let ghost mut draw: Seq<u64> = Seq::empty();
        match DataRow::from_cells(
            row_id,
            next.entity.timepoint,
            next.entity.entity_path,
            next.cells,
        ) {
            Ok(row) => {
                assert(row@ =~= row_view);
                let ghost before = store@;
                let ghost before_events = events@;
                let res = insert_row_with_retries(
                    store,
                    row,
                    MAX_INSERT_ROW_ATTEMPTS,
                    DEFAULT_INSERT_ROW_STEP_SIZE,
                );
                proof {
                    let randoms = choose|randoms: Seq<u64>|
                        ({
                            let end = #[trigger] inserted(
                                before,
                                config,
                                row_view,
                                MAX_INSERT_ROW_ATTEMPTS as nat,
                                DEFAULT_INSERT_ROW_STEP_SIZE,
                                randoms,
                            );
                            &&& store@ == end.store
                            &&& match (res, end.outcome) {
                                (Ok(event), Ok(added)) => event.diff@ == addition_of(added),
                                (Err(error), Err(expected)) => error == expected,
                                _ => false,
                            }
                        });
                    draw = randoms;
                    crate::retry::law_retries_change_only_the_counter(
                        before,
                        config,
                        row_view,
                        MAX_INSERT_ROW_ATTEMPTS as nat,
                        DEFAULT_INSERT_ROW_STEP_SIZE,
                        randoms,
                    );
                }
                match res {
                    Ok(event) => {
                        row_id = event.diff.row_id.next();
                        let ghost diff = event.diff@;
                        events.push(event);
                        proof {
                            assert(event_diffs(events@) =~= event_diffs(before_events).push(diff));
                            assert forall|k: int| 0 <= k < events@.len() implies timelines_distinct(
                                (#[trigger] events@[k]).diff.times@,
                            ) && times_temporal(events@[k].diff.times@) by {
                                if k < before_events.len() {
                                    assert(events@[k] == before_events[k]);
                                }
                            }
                        }
                    },
                    Err(_) => {},
                }
            },
            Err(_) => {},
        }
        proof {
            let longer = draws.push(draw);
            lemma_cascade_entities_prefix(
                start,
                config,
                types@,
                all.take(i as int),
                draws,
                longer,
            );
            draws = longer;
        }
        i += 1;
    }
    assert(all.take(i as int) =~= all);
}

impl EntityDb {
    /// Empties what is to be emptied.
    ///
    /// Each entity gets all of its empty cells in one row. The ids of the rows start at that of the
    /// row which set off the clear, and count up from there.
    fn on_clear_cascade(&mut self, clear_cascade: ClearCascade) -> (r: Vec<StoreEvent>)
        requires
            old(self).wf(),
            clear_cascade.wf(),
        ensures
            final(self).wf(),
            final(self).data_store.id == old(self).data_store.id,
            final(self).data_store.config == old(self).data_store.config,
            final(self).data_source == old(self).data_source,
            final(self).set_store_info == old(self).set_store_info,
            final(self).last_modified_at == old(self).last_modified_at,
            final(self).tree == old(self).tree,
            events_proper(r@),
            exists|randoms: Seq<Seq<Seq<u64>>>|
                ({
                    let end = #[trigger] cascade_rows(
                        Cascade {
                            store: old(self)@.store,
                            row_id: RowId { bits: 0 },
                            diffs: Seq::empty(),
                        },
                        old(self).data_store.config,
                        old(self)@.store.types,
                        clear_cascade@,
                        randoms,
                    );
                    &&& final(self)@ == (DbView { store: end.store, ..old(self)@ })
                    &&& event_diffs(r@) == end.diffs
                }),
    {
        let ghost types = self@.store.types;
        let ghost config = self.data_store.config;
        let ghost all = clear_cascade@;
        let ghost start = Cascade {
            store: self@.store,
            row_id: RowId { bits: 0 },
            diffs: Seq::empty(),
        };
        let mut pending = self.pending_clears(clear_cascade);
        let ghost given = pending@;
        let mut events: Vec<StoreEvent> = Vec::new();
        let ghost mut draws: Seq<Seq<Seq<u64>>> = Seq::empty();
        let n: usize = pending.len();
        let mut i: usize = 0;
        assert(event_diffs(events@) =~= Seq::<DiffView>::empty());
        while i < n
            invariant
                i <= n,
                n == given.len(),
                n == all.len(),
                pending_rows_match(given, all, types),
                pending@ == given.skip(i as int),
                self.wf(),
                config == old(self).data_store.config,
                self.data_store.id == old(self).data_store.id,
                self.data_store.config == old(self).data_store.config,
                self.data_source == old(self).data_source,
                self.set_store_info == old(self).set_store_info,
                self.last_modified_at == old(self).last_modified_at,
                self.tree == old(self).tree,
                self.latest_row_id == old(self).latest_row_id,
                self.entity_path_from_hash == old(self).entity_path_from_hash,
                self.times_per_timeline == old(self).times_per_timeline,
                self.time_histograms == old(self).time_histograms,
                self.stats == old(self).stats,
                events_proper(events@),
                draws.len() == i,
                ({
                    let at = cascade_rows(start, config, types, all.take(i as int), draws);
                    &&& self.data_store@ == at.store
                    &&& event_diffs(events@) == at.diffs
                }),
            decreases n - i,
        {
            let ghost at = cascade_rows(start, config, types, all.take(i as int), draws);
            let row = pending.remove(0);
            proof {
                assert(row == given[i as int]);
                assert(pending@ =~= given.skip(i + 1));
                assert(all.take(i + 1).drop_last() =~= all.take(i as int));
                assert(all.take(i + 1).last() == all[i as int]);
            }
            let ghost from = Cascade {
                store: self.data_store@,
                row_id: row.row_id,
                diffs: event_diffs(events@),
            };
            insert_pending(
                &mut self.data_store,
                row.row_id,
                row.entities,
                &mut events,
                Ghost(all[i as int].entities),
                Ghost(types),
            );
            proof {
                let draw = choose|randoms: Seq<Seq<u64>>|
                    ({
                        let end = #[trigger] cascade_entities(
                            from,
                            config,
                            types,
                            all[i as int].entities,
                            randoms,
                        );
                        &&& self.data_store@ == end.store
                        &&& event_diffs(events@) == end.diffs
                    });
                let longer = draws.push(draw);
                lemma_cascade_rows_prefix(
                    start,
                    config,
                    types,
                    all.take(i as int),
                    draws,
                    longer,
                );
                draws = longer;
                assert(from =~= Cascade { row_id: all[i as int].row_id, ..at });
            }
            i += 1;
        }
        proof {
            assert(all.take(i as int) =~= all);
            let end = cascade_rows(start, config, types, all, draws);
            assert(self@ =~= DbView { store: end.store, ..old(self)@ });
        }
        events
    }
}

// --- Adding rows.

/// Why something failed, if it did.
pub open spec fn failure_of<T>(r: Result<T, WriteError>) -> Option<WriteError> {
    match r {
        Ok(_) => None,
        Err(error) => Some(error),
    }
}

/// The greater of two row ids.
pub open spec fn latest_of(latest: Option<RowId>, row_id: RowId) -> Option<RowId> {
    match latest {
        Some(latest) => if latest.bits < row_id.bits {
            Some(row_id)
        } else {
            Some(latest)
        },
        None => Some(row_id),
    }
}

/// The greatest of a row id and those of rows that were added.
pub open spec fn latest_with(latest: Option<RowId>, diffs: Seq<DiffView>) -> Option<RowId>
    decreases diffs.len(),
{
    if diffs.len() == 0 {
        latest
    } else {
        latest_of(latest_with(latest, diffs.drop_last()), diffs.last().row_id)
    }
}

/// Whether adding a row to a database ends in a given way, with given random numbers and with the
/// tree as it is when the row itself has been taken note of.
pub open spec fn row_step_with(
    before: DbView,
    config: DataStoreConfig,
    row: RowView,
    after: DbView,
    failure: Option<WriteError>,
    randoms: Seq<u64>,
    tree: EntityTree,
    more: Seq<Seq<Seq<u64>>>,
    now: Option<u64>,
) -> bool {
    let paths = path_registered(before.paths, row.entity_path);
    let first = inserted(
        before.store,
        config,
        row,
        MAX_INSERT_ROW_ATTEMPTS as nat,
        DEFAULT_INSERT_ROW_STEP_SIZE,
        randoms,
    );
    match (failure, first.outcome) {
        (None, Ok(added)) => {
            let diff = addition_of(added);
            let end = cascade_rows(
                Cascade { store: first.store, row_id: RowId { bits: 0 }, diffs: Seq::empty() },
                config,
                first.store.types,
                cleared_by(tree, diff),
                more,
            );
            &&& tree.wf()
            &&& tree@ == tree_after(before.tree, seq![diff])
            &&& after == (DbView {
                latest_row_id: latest_with(
                    latest_of(before.latest_row_id, added.row_id),
                    end.diffs,
                ),
                paths,
                times: times_after(times_after(before.times, seq![diff]), end.diffs),
                histograms: histograms_after(
                    histograms_after(before.histograms, seq![diff]),
                    end.diffs,
                ),
                tree: tree_after(tree@, end.diffs),
                store: end.store,
                samples: samples_with(before.samples, now, added.row_id),
            })
        },
        (Some(error), Err(expected)) => error == expected && after == (DbView { paths, ..before }),
        _ => false,
    }
}

/// Whether adding a row to a database may end in a given way.
///
/// The row is added under its own id, or under another one if that is taken; then whatever it
/// clears is emptied. If it cannot be added, its path is still taken note of.
pub open spec fn row_step(
    before: DbView,
    config: DataStoreConfig,
    row: RowView,
    after: DbView,
    failure: Option<WriteError>,
) -> bool {
    exists|randoms: Seq<u64>, tree: EntityTree, more: Seq<Seq<Seq<u64>>>, now: Option<u64>|
     #[trigger]
        row_step_with(before, config, row, after, failure, randoms, tree, more, now)
}

impl EntityDb {
    /// Takes note of events in all places but the store and the tree's clears.
    fn notify(&mut self, events: &Vec<StoreEvent>)
        requires
            old(self).wf(),
        ensures
            final(self).wf(),
            final(self)@ == (DbView {
                latest_row_id: latest_with(old(self)@.latest_row_id, event_diffs(events@)),
                times: times_after(old(self)@.times, event_diffs(events@)),
                histograms: histograms_after(old(self)@.histograms, event_diffs(events@)),
                tree: tree_after(old(self)@.tree, event_diffs(events@)),
                ..old(self)@
            }),
            final(self).data_store == old(self).data_store,
            final(self).data_source == old(self).data_source,
            final(self).set_store_info == old(self).set_store_info,
            final(self).last_modified_at == old(self).last_modified_at,
    {
        let ghost all = event_diffs(events@);
        let mut i: usize = 0;
        while i < events.len()
            invariant
                i <= events@.len(),
                all == event_diffs(events@),
                self.wf(),
                self.latest_row_id == latest_with(old(self).latest_row_id, all.take(i as int)),
                *self == (EntityDb { latest_row_id: self.latest_row_id, ..*old(self) }),
            decreases events@.len() - i,
        {
            proof {
                assert(all.take(i + 1).drop_last() =~= all.take(i as int));
                assert(all.take(i + 1).last() == events@[i as int].diff@);
            }
            let row_id = events[i].diff.row_id;
            let is_latest = match self.latest_row_id {
                Some(latest) => latest.bits < row_id.bits,
                None => true,
            };
            if is_latest {
                self.latest_row_id = Some(row_id);
            }
            i += 1;
        }
        assert(all.take(i as int) =~= all);
        self.times_per_timeline.on_events(events);
        self.time_histograms.on_cells(events);
        self.tree.on_events(events);
    }

    /// Adds a row.
    ///
    /// Updates the tree, and empties whatever the row clears. A duplicated row id is likely a
    /// mistake of whoever logged it, yet the row is added under another one: saving and loading can
    /// tear one row into several that share an id.
    pub fn add_data_row(&mut self, row: DataRow) -> (r: Result<(), WriteError>)
        requires
            old(self).wf(),
            row.wf(),
        ensures
            final(self).wf(),
            final(self).data_store.id == old(self).data_store.id,
            final(self).data_store.config == old(self).data_store.config,
            final(self).data_source == old(self).data_source,
            final(self).set_store_info == old(self).set_store_info,
            final(self).last_modified_at == old(self).last_modified_at,
            row_step(old(self)@, old(self).data_store.config, row@, final(self)@, failure_of(r)),
    {
        let ghost before = self@;
        let ghost config = self.data_store.config;
        let ghost row_view = row@;
        self.register_entity_path(&row.entity_path);
        let ghost store = self.data_store;
        let res = insert_row_with_retries(
            &mut self.data_store,
            row,
            MAX_INSERT_ROW_ATTEMPTS,
            DEFAULT_INSERT_ROW_STEP_SIZE,
        );
        let ghost randoms = choose|randoms: Seq<u64>|
            ({
                let end = #[trigger] inserted(
                    before.store,
                    config,
                    row_view,
                    MAX_INSERT_ROW_ATTEMPTS as nat,
                    DEFAULT_INSERT_ROW_STEP_SIZE,
                    randoms,
                );
                &&& self.data_store@ == end.store
                &&& match (res, end.outcome) {
                    (Ok(event), Ok(added)) => is_addition_event(event, store, added),
                    (Err(error), Err(expected)) => error == expected,
                    _ => false,
                }
            });
        proof {
            crate::retry::law_retries_change_only_the_counter(
                before.store,
                config,
                row_view,
                MAX_INSERT_ROW_ATTEMPTS as nat,
                DEFAULT_INSERT_ROW_STEP_SIZE,
                randoms,
            );
        }
        let event = match res {
            Ok(event) => event,
            Err(error) => {
                proof {
                    let after = DbView {
                        paths: path_registered(before.paths, row_view.entity_path),
                        ..before
                    };
                    assert(self@ =~= after);
                    assert(row_step_with(
                        before,
                        config,
                        row_view,
                        self@,
                        Some(error),
                        randoms,
                        self.tree,
                        Seq::empty(),
                        None,
                    ));
                }
                return Err(error);
            },
        };
        let ghost diff = event.diff@;
        let mut events: Vec<StoreEvent> = Vec::new();
        events.push(event);
        proof {
            assert(event_diffs(events@) =~= seq![diff]);
            assert(seq![diff].drop_last() =~= Seq::<DiffView>::empty());
            reveal_with_fuel(latest_with, 2);
        }
        self.notify(&events);
        let ghost mid = self.tree;
        let clear_cascade = self.tree.clear_cascade_of(&events);
        proof {
            assert(event_diffs(events@).drop_last() =~= Seq::<DiffView>::empty());
            assert(clear_cascade@ =~= cleared_by(mid, diff)) by {
                reveal_with_fuel(cleared_by_all, 2);
                assert(event_diffs(events@).last() == diff);
                assert(cleared_by_all(mid, Seq::empty()) =~= Seq::empty());
            }
        }
        let ghost first_store = self@.store;
        let new_events = self.on_clear_cascade(clear_cascade);
        let ghost more = choose|randoms: Seq<Seq<Seq<u64>>>|
            ({
                let end = #[trigger] cascade_rows(
                    Cascade { store: first_store, row_id: RowId { bits: 0 }, diffs: Seq::empty() },
                    config,
                    first_store.types,
                    cleared_by(mid, diff),
                    randoms,
                );
                &&& self@.store == end.store
                &&& event_diffs(new_events@) == end.diffs
            });
        self.notify(&new_events);
        let ghost samples = self.stats.samples@;
        let ghost store_id = self.stats.store_id;
        self.stats.on_events(&events);
        proof {
            let readings = choose|readings: Seq<Option<u64>>|
                self.stats.samples@ == #[trigger] samples_after(
                    samples,
                    events@,
                    store_id,
                    readings,
                );
            let now = readings[0];
            assert(events@.drop_last() =~= Seq::<StoreEvent>::empty());
            reveal_with_fuel(samples_after, 2);
            assert(self@.samples == samples_with(before.samples, now, diff.row_id));
            assert(row_step_with(
                before,
                config,
                row_view,
                self@,
                None,
                randoms,
                mid,
                more,
                now,
            ));
        }
        Ok(())
    }
}

// --- Adding more than one row.

/// Whether adding rows to a database, one after the other and up to the first failure, may end in a
/// given way.
pub open spec fn rows_added(
    before: DbView,
    config: DataStoreConfig,
    rows: Seq<RowView>,
    after: DbView,
    failure: Option<WriteError>,
) -> bool
    decreases rows.len(),
{
    if rows.len() == 0 {
        after == before && failure is None
    } else {
        ||| exists|mid: DbView|
            rows_added(before, config, rows.drop_last(), mid, None) && #[trigger] row_step(
                mid,
                config,
                rows.last(),
                after,
                failure,
            )
        ||| failure is Some && rows_added(before, config, rows.drop_last(), after, failure)
    }
}

/// A failure is final.
proof fn lemma_rows_added_failed(
    before: DbView,
    config: DataStoreConfig,
    rows: Seq<RowView>,
    n: int,
    after: DbView,
    failure: Option<WriteError>,
)
    requires
        0 <= n <= rows.len(),
        failure is Some,
        rows_added(before, config, rows.take(n), after, failure),
    ensures
        rows_added(before, config, rows, after, failure),
    decreases rows.len(),
{
    if n == rows.len() {
        assert(rows.take(n) =~= rows);
    } else {
        assert(rows.drop_last().take(n) =~= rows.take(n));
        lemma_rows_added_failed(before, config, rows.drop_last(), n, after, failure);
    }
}

// --- The latest row id.

/// Whether no registered row has a greater id than this one.
pub open spec fn none_above(registry: Seq<RowMeta>, latest: Option<RowId>) -> bool {
    forall|i: int|
        0 <= i < registry.len() ==> latest is Some && (#[trigger] registry[i]).row_id.bits
            <= latest->0.bits
}

/// Whether a row id is still the same, or else that of a registered row.
pub open spec fn same_or_registered(
    before: Option<RowId>,
    registry: Seq<RowMeta>,
    after: Option<RowId>,
) -> bool {
    after == before || after is Some && is_registered(registry, after->0)
}

/// Whether a row id is the highest that there is: no registered row has a greater one, and it is
/// that of a registered row unless it was there before.
pub open spec fn is_highest(
    before: Option<RowId>,
    registry: Seq<RowMeta>,
    after: Option<RowId>,
) -> bool {
    none_above(registry, after) && same_or_registered(before, registry, after)
}

pub proof fn lemma_metas_below_bounds(registry: Seq<RowMeta>, row_id: RowId)
    ensures
        0 <= metas_below(registry, row_id) <= registry.len(),
    decreases registry.len(),
{
    if registry.len() > 0 {
        lemma_metas_below_bounds(registry.drop_last(), row_id);
    }
}

proof fn lemma_inserted_highest(
    store: StoreView,
    config: DataStoreConfig,
    row: RowView,
    randoms: Seq<u64>,
    first: Option<RowId>,
    latest: Option<RowId>,
)
    requires
        is_highest(first, store.registry, latest),
    ensures
        ({
            let end = inserted(
                store,
                config,
                row,
                MAX_INSERT_ROW_ATTEMPTS as nat,
                DEFAULT_INSERT_ROW_STEP_SIZE,
                randoms,
            );
            is_highest(
                first,
                end.store.registry,
                match end.outcome {
                    Ok(added) => latest_of(latest, added.row_id),
                    Err(_) => latest,
                },
            )
        }),
{
    crate::retry::law_retries_change_only_the_counter(
        store,
        config,
        row,
        MAX_INSERT_ROW_ATTEMPTS as nat,
        DEFAULT_INSERT_ROW_STEP_SIZE,
        randoms,
    );
    let end = inserted(
        store,
        config,
        row,
        MAX_INSERT_ROW_ATTEMPTS as nat,
        DEFAULT_INSERT_ROW_STEP_SIZE,
        randoms,
    );
    if let Ok(added) = end.outcome {
        let registry = store.registry;
        let at = metas_below(registry, added.row_id);
        lemma_metas_below_bounds(registry, added.row_id);
        let out = end.store.registry;
        let now = latest_of(latest, added.row_id);
        assert(out[at].row_id == added.row_id);
        assert forall|i: int| 0 <= i < out.len() implies now is Some && (
        #[trigger] out[i]).row_id.bits <= now->0.bits by {
            if i < at {
                assert(out[i] == registry[i]);
            } else if i > at {
                assert(out[i] == registry[i - 1]);
            }
        }
        if now != first && now != Some(added.row_id) {
            let i = choose|i: int|
                0 <= i < registry.len() && (#[trigger] registry[i]).row_id == latest->0;
            if i < at {
                assert(out[i].row_id == latest->0);
            } else {
                assert(out[i + 1].row_id == latest->0);
            }
        }
    }
}

proof fn lemma_cascade_entities_highest(
    at: Cascade,
    config: DataStoreConfig,
    types: Seq<(ComponentName, DataType)>,
    entities: Seq<ClearedEntityView>,
    randoms: Seq<Seq<u64>>,
    first: Option<RowId>,
    latest: Option<RowId>,
)
    requires
        is_highest(first, at.store.registry, latest_with(latest, at.diffs)),
    ensures
        ({
            let end = cascade_entities(at, config, types, entities, randoms);
            is_highest(first, end.store.registry, latest_with(latest, end.diffs))
        }),
    decreases entities.len(),
{
    if entities.len() > 0 {
        let init = entities.drop_last();
        lemma_cascade_entities_highest(at, config, types, init, randoms, first, latest);
        let st = cascade_entities(at, config, types, init, randoms);
        let entity = entities.last();
        let row = RowView {
            row_id: st.row_id,
            times: entity.times,
            entity_path: entity.entity_path,
            cells: cleared_cells(types, entity.components),
        };
        let draw = randoms[entities.len() - 1];
        lemma_inserted_highest(
            st.store,
            config,
            row,
            draw,
            first,
            latest_with(latest, st.diffs),
        );
        let end = inserted(
            st.store,
            config,
            row,
            MAX_INSERT_ROW_ATTEMPTS as nat,
            DEFAULT_INSERT_ROW_STEP_SIZE,
            draw,
        );
        if let Ok(added) = end.outcome {
            let diffs = st.diffs.push(addition_of(added));
            assert(diffs.drop_last() =~= st.diffs);
        }
    }
}

proof fn lemma_cascade_rows_highest(
    at: Cascade,
    config: DataStoreConfig,
    types: Seq<(ComponentName, DataType)>,
    rows: Seq<ClearedRowView>,
    randoms: Seq<Seq<Seq<u64>>>,
    first: Option<RowId>,
    latest: Option<RowId>,
)
    requires
        is_highest(first, at.store.registry, latest_with(latest, at.diffs)),
    ensures
        ({
            let end = cascade_rows(at, config, types, rows, randoms);
            is_highest(first, end.store.registry, latest_with(latest, end.diffs))
        }),
    decreases rows.len(),
{
    if rows.len() > 0 {
        let init = rows.drop_last();
        lemma_cascade_rows_highest(at, config, types, init, randoms, first, latest);
        let st = cascade_rows(at, config, types, init, randoms);
        lemma_cascade_entities_highest(
            Cascade { row_id: rows.last().row_id, ..st },
            config,
            types,
            rows.last().entities,
            randoms[rows.len() - 1],
            first,
            latest,
        );
    }
}

proof fn lemma_row_step_highest(
    first: Option<RowId>,
    before: DbView,
    config: DataStoreConfig,
    row: RowView,
    after: DbView,
    failure: Option<WriteError>,
)
    requires
        row_step(before, config, row, after, failure),
        is_highest(first, before.store.registry, before.latest_row_id),
    ensures
        is_highest(first, after.store.registry, after.latest_row_id),
{
    let (randoms, tree, more, now) = choose|
        randoms: Seq<u64>,
        tree: EntityTree,
        more: Seq<Seq<Seq<u64>>>,
        now: Option<u64>,
    | #[trigger]
        row_step_with(before, config, row, after, failure, randoms, tree, more, now);
    lemma_inserted_highest(before.store, config, row, randoms, first, before.latest_row_id);
    let end = inserted(
        before.store,
        config,
        row,
        MAX_INSERT_ROW_ATTEMPTS as nat,
        DEFAULT_INSERT_ROW_STEP_SIZE,
        randoms,
    );
    if let Ok(added) = end.outcome {
        lemma_cascade_rows_highest(
            Cascade { store: end.store, row_id: RowId { bits: 0 }, diffs: Seq::empty() },
            config,
            end.store.types,
            cleared_by(tree, addition_of(added)),
            more,
            first,
            latest_of(before.latest_row_id, added.row_id),
        );
    }
}

/// Law: the latest row id of a database is the highest of all rows in its store, under whatever ids
/// they were added, those that a clear added as well. It only ever changes to the id of a row that
/// is in the store.
pub proof fn law_latest_row_id_is_the_highest(
    before: DbView,
    config: DataStoreConfig,
    rows: Seq<RowView>,
    after: DbView,
    failure: Option<WriteError>,
)
    requires
        rows_added(before, config, rows, after, failure),
        none_above(before.store.registry, before.latest_row_id),
    ensures
        none_above(after.store.registry, after.latest_row_id),
        same_or_registered(
            before.latest_row_id,
            after.store.registry,
            after.latest_row_id,
        ),
    decreases rows.len(),
{
    if rows.len() > 0 {
        let init = rows.drop_last();
        if failure is Some && rows_added(before, config, init, after, failure) {
            law_latest_row_id_is_the_highest(before, config, init, after, failure);
        } else {
            let mid = choose|mid: DbView|
                rows_added(before, config, init, mid, None) && #[trigger] row_step(
                    mid,
                    config,
                    rows.last(),
                    after,
                    failure,
                );
            law_latest_row_id_is_the_highest(before, config, init, mid, None);
            lemma_row_step_highest(before.latest_row_id, mid, config, rows.last(), after, failure);
        }
    }
}

// --- The paths that are logged to.

/// Whether one of some rows was logged to a path, going by the hash.
pub open spec fn logs_to(rows: Seq<RowView>, hash: u64) -> bool {
    exists|i: int|
        0 <= i < rows.len() && entity_path_hash((#[trigger] rows[i]).entity_path) == hash
}

/// Adding a row takes note of its path, whether or not the row can be added.
proof fn lemma_row_step_paths(
    before: DbView,
    config: DataStoreConfig,
    row: RowView,
    after: DbView,
    failure: Option<WriteError>,
)
    requires
        row_step(before, config, row, after, failure),
    ensures
        after.paths == path_registered(before.paths, row.entity_path),
{
    let (randoms, tree, more, now) = choose|
        randoms: Seq<u64>,
        tree: EntityTree,
        more: Seq<Seq<Seq<u64>>>,
        now: Option<u64>,
    | #[trigger]
        row_step_with(before, config, row, after, failure, randoms, tree, more, now);
    assert(row_step_with(before, config, row, after, failure, randoms, tree, more, now));
}

/// Whether the paths that are known are those that were known before and those that rows were
/// logged to.
pub open spec fn knows_paths_of(
    before: Map<u64, EntityPath>,
    rows: Seq<RowView>,
    after: Map<u64, EntityPath>,
) -> bool {
    &&& forall|hash: u64| #[trigger]
        after.contains_key(hash) <==> before.contains_key(hash) || logs_to(rows, hash)
    &&& forall|hash: u64|
        before.contains_key(hash) ==> #[trigger] after[hash] == before[hash]
}

proof fn lemma_one_more_path(
    before: Map<u64, EntityPath>,
    rows: Seq<RowView>,
    mid: Map<u64, EntityPath>,
)
    requires
        rows.len() > 0,
        knows_paths_of(before, rows.drop_last(), mid),
    ensures
        knows_paths_of(before, rows, path_registered(mid, rows.last().entity_path)),
{
    let init = rows.drop_last();
    let n = init.len() as int;
    let after = path_registered(mid, rows.last().entity_path);
    assert forall|hash: u64| #[trigger]
        after.contains_key(hash) <==> before.contains_key(hash) || logs_to(rows, hash) by {
        assert(mid.contains_key(hash) <==> before.contains_key(hash) || logs_to(init, hash));
        if logs_to(init, hash) {
            let i = choose|i: int|
                0 <= i < init.len() && entity_path_hash((#[trigger] init[i]).entity_path) == hash;
            assert(rows[i] == init[i]);
        }
        if entity_path_hash(rows[n].entity_path) == hash {
            assert(logs_to(rows, hash));
        }
        if logs_to(rows, hash) {
            let i = choose|i: int|
                0 <= i < rows.len() && entity_path_hash((#[trigger] rows[i]).entity_path) == hash;
            if i < n {
                assert(init[i] == rows[i]);
            }
        }
    }
    assert forall|hash: u64| before.contains_key(hash) implies #[trigger] after[hash]
        == before[hash] by {
        assert(mid.contains_key(hash));
        assert(mid[hash] == before[hash]);
    }
}

/// Law: exactly the paths that rows were logged to are known, on top of those that were known
/// before. This goes for the rows up to the first that could not be added, and for that one too.
pub proof fn law_logged_paths_are_known(
    before: DbView,
    config: DataStoreConfig,
    rows: Seq<RowView>,
    after: DbView,
    failure: Option<WriteError>,
) -> (n: int)
    requires
        rows_added(before, config, rows, after, failure),
    ensures
        0 <= n <= rows.len(),
        failure is None ==> n == rows.len(),
        failure is Some ==> exists|mid: DbView|
            0 < n && rows_added(before, config, rows.take(n - 1), mid, None)
                && #[trigger] row_step(mid, config, rows[n - 1], after, failure),
        knows_paths_of(before.paths, rows.take(n), after.paths),
    decreases rows.len(),
{
    if rows.len() == 0 {
        assert(rows.take(0) =~= rows);
        0
    } else {
        let init = rows.drop_last();
        if failure is Some && rows_added(before, config, init, after, failure) {
            let n = law_logged_paths_are_known(before, config, init, after, failure);
            assert(init.take(n) =~= rows.take(n));
            assert(init.take(n - 1) =~= rows.take(n - 1));
            assert(init[n - 1] == rows[n - 1]);
            n
        } else {
            let n = rows.len() as int;
            let mid = choose|mid: DbView|
                rows_added(before, config, init, mid, None) && #[trigger] row_step(
                    mid,
                    config,
                    rows.last(),
                    after,
                    failure,
                );
            let m = law_logged_paths_are_known(before, config, init, mid, None);
            assert(init.take(m) =~= init);
            assert(rows.take(n - 1) =~= init);
            assert(rows.take(n) =~= rows);
            lemma_row_step_paths(mid, config, rows.last(), after, failure);
            lemma_one_more_path(before.paths, rows, mid.paths);
            n
        }
    }
}

// --- What clears write.

/// Law: a clear writes at most one row for each of its entities, in the order of their paths.
pub proof fn law_clears_write_in_order(
    at: Cascade,
    config: DataStoreConfig,
    types: Seq<(ComponentName, DataType)>,
    entities: Seq<ClearedEntityView>,
    randoms: Seq<Seq<u64>>,
)
    requires
        entities_in_order(entities),
    ensures
        ({
            let end = cascade_entities(at, config, types, entities, randoms);
            &&& at.diffs.len() <= end.diffs.len() <= at.diffs.len() + entities.len()
            &&& forall|k: int| 0 <= k < at.diffs.len() ==> #[trigger] end.diffs[k] == at.diffs[k]
            &&& forall|k: int|
                at.diffs.len() <= k < end.diffs.len() ==> exists|e: int|
                    0 <= e < entities.len() && (#[trigger] entities[e]).entity_path == (
                    #[trigger] end.diffs[k]).entity_path
            &&& forall|j: int, k: int|
                #![trigger end.diffs[j], end.diffs[k]]
                at.diffs.len() <= j < k < end.diffs.len() ==> path_before(
                    entity_path_parts(end.diffs[j].entity_path),
                    entity_path_parts(end.diffs[k].entity_path),
                )
        }),
    decreases entities.len(),
{
    if entities.len() > 0 {
        let init = entities.drop_last();
        let n = init.len() as int;
        assert forall|i: int, j: int|
            #![trigger init[i], init[j]]
            0 <= i < j < init.len() implies path_before(
            entity_path_parts(init[i].entity_path),
            entity_path_parts(init[j].entity_path),
        ) by {
            assert(entities[i] == init[i] && entities[j] == init[j]);
        }
        law_clears_write_in_order(at, config, types, init, randoms);
        let st = cascade_entities(at, config, types, init, randoms);
        let end = cascade_entities(at, config, types, entities, randoms);
        let row = RowView {
            row_id: st.row_id,
            times: entities.last().times,
            entity_path: entities.last().entity_path,
            cells: cleared_cells(types, entities.last().components),
        };
        crate::retry::law_retries_change_only_the_counter(
            st.store,
            config,
            row,
            MAX_INSERT_ROW_ATTEMPTS as nat,
            DEFAULT_INSERT_ROW_STEP_SIZE,
            randoms[n],
        );
        assert forall|k: int| at.diffs.len() <= k < end.diffs.len() implies exists|e: int|
            0 <= e < entities.len() && (#[trigger] entities[e]).entity_path == (
            #[trigger] end.diffs[k]).entity_path by {
            if k < st.diffs.len() {
                assert(end.diffs[k] == st.diffs[k]);
                let e = choose|e: int|
                    0 <= e < init.len() && (#[trigger] init[e]).entity_path
                        == st.diffs[k].entity_path;
                assert(entities[e] == init[e]);
            } else {
                assert(entities[n].entity_path == end.diffs[k].entity_path);
            }
        }
        assert forall|j: int, k: int|
            #![trigger end.diffs[j], end.diffs[k]]
            at.diffs.len() <= j < k < end.diffs.len() implies path_before(
            entity_path_parts(end.diffs[j].entity_path),
            entity_path_parts(end.diffs[k].entity_path),
        ) by {
            assert(end.diffs[j] == st.diffs[j]);
            if k < st.diffs.len() {
                assert(end.diffs[k] == st.diffs[k]);
            } else {
                let e = choose|e: int|
                    0 <= e < init.len() && (#[trigger] init[e]).entity_path
                        == st.diffs[j].entity_path;
                assert(entities[e] == init[e]);
                assert(entities[n].entity_path == end.diffs[k].entity_path);
            }
        }
    }
}

/// How far apart the ids of two rows that a clear writes one after the other are at most.
pub open spec fn max_clear_step() -> int {
    MAX_INSERT_ROW_ATTEMPTS * DEFAULT_INSERT_ROW_STEP_SIZE + 1
}

/// Law: the rows of a clear have ever higher ids, none of them lower than that of the clear itself.
/// This holds unless the counter of the id wraps around.
pub proof fn law_clears_count_upwards(
    at: Cascade,
    config: DataStoreConfig,
    types: Seq<(ComponentName, DataType)>,
    entities: Seq<ClearedEntityView>,
    randoms: Seq<Seq<u64>>,
)
    requires
        at.row_id.inc() + entities.len() * max_clear_step() < TWO_POW_64,
    ensures
        ({
            let end = cascade_entities(at, config, types, entities, randoms);
            &&& at.row_id.bits <= end.row_id.bits
            &&& end.row_id.inc() <= at.row_id.inc() + entities.len() * max_clear_step()
            &&& at.diffs.len() <= end.diffs.len()
            &&& forall|k: int|
                at.diffs.len() <= k < end.diffs.len() ==> at.row_id.bits <= (
                #[trigger] end.diffs[k]).row_id.bits < end.row_id.bits
            &&& forall|j: int, k: int|
                #![trigger end.diffs[j], end.diffs[k]]
                at.diffs.len() <= j < k < end.diffs.len() ==> end.diffs[j].row_id.bits
                    < end.diffs[k].row_id.bits
        }),
    decreases entities.len(),
{
    if entities.len() > 0 {
        let init = entities.drop_last();
        let n = init.len() as int;
        assert(entities.len() * max_clear_step() == n * max_clear_step() + max_clear_step())
            by (nonlinear_arith)
            requires
                entities.len() == n + 1,
        ;
        law_clears_count_upwards(at, config, types, init, randoms);
        let st = cascade_entities(at, config, types, init, randoms);
        let end = cascade_entities(at, config, types, entities, randoms);
        let row = RowView {
            row_id: st.row_id,
            times: entities.last().times,
            entity_path: entities.last().entity_path,
            cells: cleared_cells(types, entities.last().components),
        };
        crate::retry::law_retries_count_upwards(
            st.store,
            config,
            row,
            MAX_INSERT_ROW_ATTEMPTS as nat,
            DEFAULT_INSERT_ROW_STEP_SIZE,
            randoms[n],
        );
        if end.diffs.len() > st.diffs.len() {
            let added = inserted(
                st.store,
                config,
                row,
                MAX_INSERT_ROW_ATTEMPTS as nat,
                DEFAULT_INSERT_ROW_STEP_SIZE,
                randoms[n],
            ).outcome->Ok_0;
            crate::names::lemma_plus_grows(added.row_id, 1);
            assert forall|j: int, k: int|
                #![trigger end.diffs[j], end.diffs[k]]
                at.diffs.len() <= j < k < end.diffs.len() implies end.diffs[j].row_id.bits
                < end.diffs[k].row_id.bits by {
                assert(end.diffs[j] == st.diffs[j]);
                if k < st.diffs.len() {
                    assert(end.diffs[k] == st.diffs[k]);
                }
            }
        }
    }
}

pub open spec fn row_views(rows: Seq<DataRow>) -> Seq<RowView> {
    Seq::new(rows.len(), |i: int| rows[i]@)
}

pub open spec fn rows_wf(rows: Seq<DataRow>) -> bool {
    forall|i: int| 0 <= i < rows.len() ==> (#[trigger] rows[i]).wf()
}

/// Why something could not be added: its data could not be decoded, or could not be written.
#[derive(Debug)]
pub enum AddError<E> {
    Decode(E),
    Write(WriteError),
}

/// The rows before the first that could not be decoded.
pub open spec fn decoded<E>(rows: Seq<Result<DataRow, E>>) -> Seq<DataRow>
    decreases rows.len(),
{
    if rows.len() == 0 {
        Seq::empty()
    } else {
        match rows[0] {
            Ok(row) => seq![row] + decoded(rows.skip(1)),
            Err(_) => Seq::empty(),
        }
    }
}

/// Why the first row that could not be decoded could not be.
pub open spec fn undecoded<E>(rows: Seq<Result<DataRow, E>>) -> Option<E>
    decreases rows.len(),
{
    if rows.len() == 0 {
        None
    } else {
        match rows[0] {
            Ok(_) => undecoded(rows.skip(1)),
            Err(error) => Some(error),
        }
    }
}

/// Whether adding the rows of a table may end in a given way: the rows are added one after the
/// other, up to the first that cannot be added or could not be decoded.
pub open spec fn table_added<E>(
    before: DbView,
    config: DataStoreConfig,
    rows: Seq<Result<DataRow, E>>,
    after: DbView,
    r: Result<(), AddError<E>>,
) -> bool {
    let good = row_views(decoded(rows));
    match r {
        Ok(()) => undecoded(rows) is None && rows_added(before, config, good, after, None),
        Err(AddError::Decode(error)) => undecoded(rows) == Some(error) && rows_added(
            before,
            config,
            good,
            after,
            None,
        ),
        Err(AddError::Write(error)) => rows_added(before, config, good, after, Some(error)),
    }
}

/// The command to make a blueprint the one in use.
#[derive(Debug)]
pub struct BlueprintActivationCommand {
    pub blueprint_id: StoreId,
    pub make_active: bool,
    pub make_default: bool,
}

/// A message about a store, with its data in whatever form `D`.
#[derive(Debug)]
pub enum LogMsg<D> {
    SetStoreInfo(SetStoreInfo),
    Data(StoreId, D),
    BlueprintActivationCommand(BlueprintActivationCommand),
}

/// A row id that was not used yet, by this machine's clock.
///
/// Calls `re_log_types::RowId::new`. Nothing is promised of the result.
#[verifier::external_body]
pub(crate) fn new_row_id() -> (r: RowId) {
    RowId { bits: re_log_types::RowId::new().as_u128() }
}

impl EntityDb {
    pub(crate) fn add_rows(&mut self, rows: Vec<DataRow>) -> (r: Result<(), WriteError>)
        requires
            old(self).wf(),
            rows_wf(rows@),
        ensures
            final(self).wf(),
            final(self).data_store.id == old(self).data_store.id,
            final(self).data_store.config == old(self).data_store.config,
            final(self).data_source == old(self).data_source,
            final(self).set_store_info == old(self).set_store_info,
            final(self).last_modified_at == old(self).last_modified_at,
            rows_added(
                old(self)@,
                old(self).data_store.config,
                row_views(rows@),
                final(self)@,
                failure_of(r),
            ),
    {
        let ghost before = self@;
        let ghost config = self.data_store.config;
        let ghost given = rows@;
        let ghost all = row_views(rows@);
        let mut rest = rows;
        let n: usize = rest.len();
        let mut i: usize = 0;
        while i < n
            invariant
                i <= n,
                n == given.len(),
                given == rows@,
                all == row_views(given),
                rows_wf(given),
                rest@ == given.skip(i as int),
                self.wf(),
                before == old(self)@,
                config == old(self).data_store.config,
                self.data_store.id == old(self).data_store.id,
                self.data_store.config == old(self).data_store.config,
                self.data_source == old(self).data_source,
                self.set_store_info == old(self).set_store_info,
                self.last_modified_at == old(self).last_modified_at,
                rows_added(before, config, all.take(i as int), self@, None),
            decreases n - i,
        {
            let row = rest.remove(0);
            proof {
                assert(row == given[i as int]);
                assert(rest@ =~= given.skip(i + 1));
                assert(all.take(i + 1).drop_last() =~= all.take(i as int));
                assert(all.take(i + 1).last() == row@);
                assert(given[i as int].wf());
            }
            let ghost mid = self@;
            let res = self.add_data_row(row);
            assert(row_step(mid, config, all.take(i + 1).last(), self@, failure_of(res)));
            assert(rows_added(before, config, all.take(i + 1), self@, failure_of(res)));
            if let Err(error) = res {
                proof {
                    lemma_rows_added_failed(before, config, all, i + 1, self@, failure_of(res));
                }
                return Err(error);
            }
            i += 1;
        }
        assert(all.take(i as int) =~= all);
        Ok(())
    }

    /// Adds all rows of a table, up to the first that could not be decoded or cannot be added.
    pub fn add_data_table<E>(&mut self, rows: Vec<Result<DataRow, E>>) -> (r: Result<
        (),
        AddError<E>,
    >)
        requires
            old(self).wf(),
            rows_wf(decoded(rows@)),
        ensures
            final(self).wf(),
            final(self).data_store.id == old(self).data_store.id,
            final(self).data_store.config == old(self).data_store.config,
            final(self).data_source == old(self).data_source,
            final(self).set_store_info == old(self).set_store_info,
            r is Err ==> final(self).last_modified_at == old(self).last_modified_at,
            table_added(old(self)@, old(self).data_store.config, rows@, final(self)@, r),
    {
        let ghost given = rows@;
        let mut rest = rows;
        let mut good: Vec<DataRow> = Vec::new();
        let mut failure: Option<E> = None;
        proof {
            assert(given.skip(0) =~= given);
            assert(good@ + decoded(given) =~= decoded(given));
        }
        while failure.is_none() && rest.len() > 0
            invariant
                failure is None ==> decoded(given) == good@ + decoded(rest@) && undecoded(given)
                    == undecoded(rest@),
                failure is Some ==> decoded(given) == good@ && undecoded(given) == failure,
            decreases rest@.len(),
        {
            let ghost before = rest@;
            let row = rest.remove(0);
            proof {
                assert(before[0] == row);
                assert(rest@ =~= before.skip(1));
            }
            match row {
                Ok(row) => {
                    let ghost had = good@;
                    good.push(row);
                    assert(had + (seq![row] + decoded(rest@)) =~= good@ + decoded(rest@));
                },
                Err(error) => {
                    failure = Some(error);
                    assert(good@ + Seq::<DataRow>::empty() =~= good@);
                },
            }
        }
        assert(failure is None ==> good@ + Seq::<DataRow>::empty() =~= good@);
        match self.add_rows(good) {
            Ok(()) => {},
            Err(error) => {
                return Err(AddError::Write(error));
            },
        }
        match failure {
            Some(error) => Err(AddError::Decode(error)),
            None => {
                self.last_modified_at = clock_now();
                Ok(())
            },
        }
    }

    /// Takes in a message.
    pub fn add<E>(&mut self, msg: LogMsg<Vec<Result<DataRow, E>>>) -> (r: Result<(), AddError<E>>)
        requires
            old(self).wf(),
            msg matches LogMsg::Data(_, rows) ==> rows_wf(decoded(rows@)),
        ensures
            final(self).wf(),
            final(self).data_store.id == old(self).data_store.id,
            final(self).data_store.config == old(self).data_store.config,
            final(self).data_source == old(self).data_source,
            match msg {
                LogMsg::SetStoreInfo(info) => {
                    &&& r is Ok
                    &&& final(self).set_store_info == Some(info)
                    &&& final(self).last_modified_at == old(self).last_modified_at
                    &&& final(self)@ == old(self)@
                },
                LogMsg::Data(_, rows) => {
                    &&& final(self).set_store_info == old(self).set_store_info
                    &&& r is Err ==> final(self).last_modified_at == old(self).last_modified_at
                    &&& table_added(old(self)@, old(self).data_store.config, rows@, final(self)@, r)
                },
                LogMsg::BlueprintActivationCommand(_) => r is Ok && *final(self) == *old(self),
            },
    {
        match msg {
            LogMsg::SetStoreInfo(info) => {
                self.set_store_info = Some(info);
                Ok(())
            },
            LogMsg::Data(_, rows) => self.add_data_table(rows),
            LogMsg::BlueprintActivationCommand(_) => Ok(()),
        }
    }

    /// Makes a database out of what is known of a store and some rows.
    pub fn from_info_and_rows(store_info: StoreInfo, rows: Vec<DataRow>) -> (r: Result<
        EntityDb,
        WriteError,
    >)
        requires
            rows_wf(rows@),
        ensures
            match r {
                Ok(db) => {
                    &&& db.wf()
                    &&& db.data_store.id == store_info.store_id
                    &&& db.data_source is None
                    &&& db.set_store_info matches Some(msg) && msg.info == store_info
                    &&& rows_added(
                        crate::entity_db::empty_db(),
                        db.data_store.config,
                        row_views(rows@),
                        db@,
                        None,
                    )
                    &&& db.data_store.config.indexed_bucket_num_rows == 512
                    &&& !db.data_store.config.store_insert_ids
                },
                Err(error) => exists|config: DataStoreConfig, after: DbView|
                    config.indexed_bucket_num_rows == 512 && !config.store_insert_ids
                        && #[trigger] rows_added(
                        crate::entity_db::empty_db(),
                        config,
                        row_views(rows@),
                        after,
                        Some(error),
                    ),
            },
    {
        let mut db = EntityDb::new(store_info.store_id.clone());
        db.set_store_info(SetStoreInfo { row_id: new_row_id(), info: store_info });
        let res = db.add_rows(rows);
        match res {
            Ok(()) => Ok(db),
            Err(error) => Err(error),
        }
    }
}

// --- Tables.

/// Law: of the rows of a table, those before the first that could not be decoded are used, all of
/// them and in order. What is reported is why that first one could not be.
pub proof fn law_rows_are_used_up_to_the_first_failure<E>(rows: Seq<Result<DataRow, E>>)
    ensures
        ({
            let n = decoded(rows).len() as int;
            &&& n <= rows.len()
            &&& forall|i: int|
                0 <= i < n ==> (#[trigger] rows[i]) == Ok::<DataRow, E>(decoded(rows)[i])
            &&& undecoded(rows) is None <==> n == rows.len()
            &&& undecoded(rows) matches Some(error) ==> rows[n] == Err::<DataRow, E>(error)
        }),
    decreases rows.len(),
{
    if rows.len() > 0 {
        if let Ok(row) = rows[0] {
            let rest = rows.skip(1);
            law_rows_are_used_up_to_the_first_failure(rest);
            let n = decoded(rows).len() as int;
            assert forall|i: int| 0 <= i < n implies (#[trigger] rows[i]) == Ok::<DataRow, E>(
                decoded(rows)[i],
            ) by {
                if i > 0 {
                    assert(rest[i - 1] == rows[i]);
                }
            }
            if n < rows.len() {
                assert(rest[n - 1] == rows[n]);
            }
        }
    }
}

} // verus!

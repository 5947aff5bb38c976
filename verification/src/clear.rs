//! Clears: which components of which entities are emptied when a clear is logged.
use crate::bucket::{cell_of, find_cell};
use crate::components::{clear_indicator_name, clear_is_recursive_name};
use crate::names::{ComponentName, RowId, TimeInt, Timeline};
use crate::path::{clone_path, entity_path_parts, path_before};
use crate::row::{event_diffs, CellValue, DataCell, DiffView, StoreEvent, TimePoint};
use crate::row::{clone_times, timelines_distinct, times_temporal};
use crate::tree::{
    lemma_listed_in_order, listed, node_at, visited_in_order, visited_views, EntityTree, VisitedView,
};
use re_log_types::EntityPath;
use vstd::prelude::*;

verus! {

/// The components of an entity that are to be emptied, and when.
#[derive(Debug)]
pub struct ClearedEntity {
    pub entity_path: EntityPath,
    pub timepoint: TimePoint,
    pub components: Vec<ComponentName>,
}

/// Everything that is to be emptied because of one row.
#[derive(Debug)]
pub struct ClearedRow {
    pub row_id: RowId,
    pub entities: Vec<ClearedEntity>,
}

/// Everything that is to be emptied.
#[derive(Debug)]
pub struct ClearCascade {
    pub to_be_cleared: Vec<ClearedRow>,
}

#[verifier::ext_equal]
pub struct ClearedEntityView {
    pub entity_path: EntityPath,
    pub times: Seq<(Timeline, TimeInt)>,
    pub components: Seq<ComponentName>,
}

#[verifier::ext_equal]
pub struct ClearedRowView {
    pub row_id: RowId,
    pub entities: Seq<ClearedEntityView>,
}

impl View for ClearedEntity {
    type V = ClearedEntityView;

    open spec fn view(&self) -> ClearedEntityView {
        ClearedEntityView {
            entity_path: self.entity_path,
            times: self.timepoint.times@,
            components: self.components@,
        }
    }
}

pub open spec fn cleared_entity_views(entities: Seq<ClearedEntity>) -> Seq<ClearedEntityView> {
    Seq::new(entities.len(), |i: int| entities[i]@)
}

impl View for ClearedRow {
    type V = ClearedRowView;

    open spec fn view(&self) -> ClearedRowView {
        ClearedRowView { row_id: self.row_id, entities: cleared_entity_views(self.entities@) }
    }
}

impl View for ClearCascade {
    type V = Seq<ClearedRowView>;

    open spec fn view(&self) -> Seq<ClearedRowView> {
        Seq::new(self.to_be_cleared@.len(), |i: int| self.to_be_cleared@[i]@)
    }
}

/// Whether entities are in the order of their paths, each of which occurs once.
pub open spec fn entities_in_order(entities: Seq<ClearedEntityView>) -> bool {
    forall|i: int, j: int|
        #![trigger entities[i], entities[j]]
        0 <= i < j < entities.len() ==> path_before(
            entity_path_parts(entities[i].entity_path),
            entity_path_parts(entities[j].entity_path),
        )
}

/// Whether rows are in the order of their ids, each of which occurs once, with the entities of each
/// in the order of their paths.
pub open spec fn clears_in_order(rows: Seq<ClearedRowView>) -> bool {
    &&& forall|i: int, j: int|
        #![trigger rows[i], rows[j]]
        0 <= i < j < rows.len() ==> rows[i].row_id.bits < rows[j].row_id.bits
    &&& forall|i: int| 0 <= i < rows.len() ==> entities_in_order((#[trigger] rows[i]).entities)
}

impl ClearCascade {
    /// Whether all times are proper ones, and everything is in order and occurs once.
    pub open spec fn wf(self) -> bool {
        &&& clears_in_order(self@)
        &&& forall|r: int, e: int|
            0 <= r < self.to_be_cleared@.len() && 0 <= e < self.to_be_cleared@[r].entities@.len()
                ==> (#[trigger] self.to_be_cleared@[r].entities@[e]).timepoint.wf()
    }

    pub fn is_empty(&self) -> (r: bool)
        ensures
            r == (self@.len() == 0),
    {
        self.to_be_cleared.len() == 0
    }
}

/// Whether a row is a clear, and if so, whether it is for everything below its entity as well.
pub open spec fn clear_flag(cells: Seq<DataCell>) -> Option<bool> {
    match cell_of(cells, "rerun.components.ClearIsRecursive"@) {
        Some(cell) => match *cell.value {
            CellValue::ClearIsRecursive(recursive) => if cell.num_instances > 0 {
                Some(recursive)
            } else {
                None
            },
            _ => None,
        },
        None => None,
    }
}

/// Whether a component is part of a clear, and so never cleared itself.
pub open spec fn is_clear_component(name: Seq<char>) -> bool {
    name == "rerun.components.ClearIsRecursive"@ || name == "rerun.components.ClearIndicator"@
}

/// The components that a clear empties.
pub open spec fn clearable(components: Seq<ComponentName>) -> Seq<ComponentName>
    decreases components.len(),
{
    if components.len() == 0 {
        components
    } else {
        let rest = clearable(components.drop_last());
        if is_clear_component(components.last()@) {
            rest
        } else {
            rest.push(components.last())
        }
    }
}

/// What a clear empties of some entities; nothing is said of those that have nothing to empty.
pub open spec fn cleared_entities(
    entities: Seq<VisitedView>,
    times: Seq<(Timeline, TimeInt)>,
) -> Seq<ClearedEntityView>
    decreases entities.len(),
{
    if entities.len() == 0 {
        Seq::empty()
    } else {
        let rest = cleared_entities(entities.drop_last(), times);
        let components = clearable(entities.last().components);
        if components.len() == 0 {
            rest
        } else {
            rest.push(
                ClearedEntityView { entity_path: entities.last().path, times, components },
            )
        }
    }
}

/// What is emptied is in the order of the entities.
pub proof fn lemma_cleared_in_order(entities: Seq<VisitedView>, times: Seq<(Timeline, TimeInt)>)
    requires
        visited_in_order(entities),
    ensures
        entities_in_order(cleared_entities(entities, times)),
        forall|k: int|
            0 <= k < cleared_entities(entities, times).len() ==> exists|i: int|
                0 <= i < entities.len() && (#[trigger] entities[i]).path == (
                #[trigger] cleared_entities(entities, times)[k]).entity_path,
    decreases entities.len(),
{
    if entities.len() > 0 {
        let init = entities.drop_last();
        let n = init.len() as int;
        assert forall|i: int, j: int|
            #![trigger init[i], init[j]]
            0 <= i < j < init.len() implies path_before(
            entity_path_parts(init[i].path),
            entity_path_parts(init[j].path),
        ) by {
            assert(entities[i] == init[i] && entities[j] == init[j]);
        }
        lemma_cleared_in_order(init, times);
        let rest = cleared_entities(init, times);
        let all = cleared_entities(entities, times);
        assert forall|k: int| 0 <= k < all.len() implies exists|i: int|
            0 <= i < entities.len() && (#[trigger] entities[i]).path == (
            #[trigger] all[k]).entity_path by {
            if k < rest.len() {
                assert(all[k] == rest[k]);
                let i = choose|i: int|
                    0 <= i < init.len() && (#[trigger] init[i]).path == rest[k].entity_path;
                assert(entities[i] == init[i]);
            } else {
                assert(entities[n].path == all[k].entity_path);
            }
        }
        assert forall|a: int, b: int|
            #![trigger all[a], all[b]]
            0 <= a < b < all.len() implies path_before(
            entity_path_parts(all[a].entity_path),
            entity_path_parts(all[b].entity_path),
        ) by {
            assert(all[a] == rest[a]);
            if b < rest.len() {
                assert(all[b] == rest[b]);
            } else {
                let i = choose|i: int|
                    0 <= i < init.len() && (#[trigger] init[i]).path == rest[a].entity_path;
                assert(entities[i] == init[i]);
                assert(entities[n].path == all[b].entity_path);
            }
        }
    }
}

/// What a row empties, if it is a clear.
///
/// A clear reaches only what is in the tree when it arrives: it does nothing to components that are
/// first logged after it.
pub open spec fn cleared_by(tree: EntityTree, diff: DiffView) -> Seq<ClearedRowView> {
    match (clear_flag(diff.cells), node_at(tree, entity_path_parts(diff.entity_path), 0)) {
        (Some(recursive), Some(node)) => {
            let all = listed(node);
            let entities = if recursive {
                all
            } else {
                all.take(1)
            };
            seq![
                ClearedRowView {
                    row_id: diff.row_id,
                    entities: cleared_entities(entities, diff.times),
                },
            ]
        },
        _ => Seq::empty(),
    }
}

/// What several rows empty.
pub open spec fn cleared_by_all(tree: EntityTree, diffs: Seq<DiffView>) -> Seq<ClearedRowView>
    decreases diffs.len(),
{
    if diffs.len() == 0 {
        Seq::empty()
    } else {
        cleared_by_all(tree, diffs.drop_last()) + cleared_by(tree, diffs.last())
    }
}

fn find_clear_flag(cells: &Vec<DataCell>) -> (r: Option<bool>)
    ensures
        r == clear_flag(cells@),
{
    let name = clear_is_recursive_name();
    match find_cell(cells, &name) {
        Some(cell) => match &*cell.value {
            CellValue::ClearIsRecursive(recursive) => if cell.num_instances > 0 {
                Some(*recursive)
            } else {
                None
            },
            _ => None,
        },
        None => None,
    }
}

fn find_clearable(components: &Vec<ComponentName>) -> (r: Vec<ComponentName>)
    ensures
        r@ == clearable(components@),
{
    let is_recursive = clear_is_recursive_name();
    let indicator = clear_indicator_name();
    let mut out: Vec<ComponentName> = Vec::new();
    let mut i: usize = 0;
    while i < components.len()
        invariant
            i <= components@.len(),
            is_recursive@ == "rerun.components.ClearIsRecursive"@,
            indicator@ == "rerun.components.ClearIndicator"@,
            out@ == clearable(components@.take(i as int)),
        decreases components@.len() - i,
    {
        assert(components@.take(i + 1).drop_last() =~= components@.take(i as int));
        let name = components[i];
        if !name.is(&is_recursive) && !name.is(&indicator) {
            out.push(name);
        }
        i += 1;
    }
    assert(components@.take(i as int) =~= components@);
    out
}

impl EntityTree {
    /// What a row empties, if it is a clear.
    ///
    /// A clear reaches only what is in the tree when it arrives: it does nothing to components that
    /// are first logged after it.
    fn clears_of(&self, event: &StoreEvent) -> (r: Option<ClearedRow>)
        requires
            self.wf(),
            timelines_distinct(event.diff.times@),
            times_temporal(event.diff.times@),
        ensures
            match r {
                Some(row) => {
                    &&& cleared_by(*self, event.diff@) == seq![row@]
                    &&& row.row_id == event.diff.row_id
                    &&& entities_in_order(row@.entities)
                    &&& forall|e: int|
                        0 <= e < row.entities@.len() ==> (
                        #[trigger] row.entities@[e]).timepoint.wf()
                },
                None => cleared_by(*self, event.diff@) == Seq::<ClearedRowView>::empty(),
            },
    {
        let recursive = match find_clear_flag(&event.diff.cells) {
            Some(recursive) => recursive,
            None => {
                return None;
            },
        };
        let node = match self.subtree(&event.diff.entity_path) {
            Some(node) => node,
            None => {
                return None;
            },
        };
        let visited = node.visit_children_recursively();
        let ghost all = visited_views(visited@);
        let ghost times = event.diff.times@;
        let n: usize = if recursive {
            visited.len()
        } else {
            1
        };
        let ghost some = if recursive {
            all
        } else {
            all.take(1)
        };
        let mut entities: Vec<ClearedEntity> = Vec::new();
        let mut i: usize = 0;
        proof {
            assert(cleared_entity_views(entities@) =~= Seq::<ClearedEntityView>::empty());
            assert(all.len() >= 1);
        }
        while i < n
            invariant
                i <= n,
                n == some.len(),
                n <= visited@.len(),
                all == visited_views(visited@),
                some == if recursive {
                    all
                } else {
                    all.take(1)
                },
                times == event.diff.times@,
                timelines_distinct(times),
                times_temporal(times),
                cleared_entity_views(entities@) == cleared_entities(some.take(i as int), times),
                forall|e: int|
                    0 <= e < entities@.len() ==> (#[trigger] entities@[e]).timepoint.wf(),
            decreases n - i,
        {
            proof {
                assert(some.take(i + 1).drop_last() =~= some.take(i as int));
                assert(some.take(i + 1).last() == visited@[i as int]@);
            }
            let components = find_clearable(&visited[i].components);
            if components.len() > 0 {
                let ghost before = entities@;
                let entity = ClearedEntity {
                    entity_path: clone_path(&visited[i].path),
                    timepoint: TimePoint { times: clone_times(&event.diff.times) },
                    components,
                };
                let ghost view = entity@;
                entities.push(entity);
                assert(cleared_entity_views(entities@) =~= cleared_entity_views(before).push(view));
            }
            i += 1;
        }
        let row = ClearedRow { row_id: event.diff.row_id, entities };
        proof {
            assert(some.take(i as int) =~= some);
            assert(cleared_by(*self, event.diff@) =~= seq![row@]);
            lemma_listed_in_order(*node, entity_path_parts(event.diff.entity_path));
            assert(visited_in_order(some)) by {
                assert forall|a: int, b: int|
                    #![trigger some[a], some[b]]
                    0 <= a < b < some.len() implies path_before(
                    entity_path_parts(some[a].path),
                    entity_path_parts(some[b].path),
                ) by {
                    assert(some[a] == all[a] && some[b] == all[b]);
                }
            }
            lemma_cleared_in_order(some, times);
        }
        Some(row)
    }

    /// What events that were just taken note of empty, as far as they are clears.
    pub fn clear_cascade_of(&self, events: &Vec<StoreEvent>) -> (r: ClearCascade)
        requires
            self.wf(),
            forall|i: int|
                0 <= i < events@.len() ==> timelines_distinct(
                    (#[trigger] events@[i]).diff.times@,
                ) && times_temporal(events@[i].diff.times@),
            forall|i: int, j: int|
                #![trigger events@[i], events@[j]]
                0 <= i < j < events@.len() ==> events@[i].diff.row_id.bits
                    < events@[j].diff.row_id.bits,
        ensures
            r.wf(),
            r@ == cleared_by_all(*self, event_diffs(events@)),
    {
        let ghost all = event_diffs(events@);
        let mut r = ClearCascade { to_be_cleared: Vec::new() };
        let mut i: usize = 0;
        assert(r@ =~= Seq::<ClearedRowView>::empty());
        while i < events.len()
            invariant
                i <= events@.len(),
                all == event_diffs(events@),
                self.wf(),
                forall|i: int|
                    0 <= i < events@.len() ==> timelines_distinct(
                        (#[trigger] events@[i]).diff.times@,
                    ) && times_temporal(events@[i].diff.times@),
                r.wf(),
                r@ == cleared_by_all(*self, all.take(i as int)),
                forall|i: int, j: int|
                    #![trigger events@[i], events@[j]]
                    0 <= i < j < events@.len() ==> events@[i].diff.row_id.bits
                        < events@[j].diff.row_id.bits,
                forall|k: int|
                    0 <= k < r@.len() ==> exists|j: int|
                        0 <= j < i && (#[trigger] events@[j]).diff.row_id == (
                        #[trigger] r@[k]).row_id,
            decreases events@.len() - i,
        {
            proof {
                assert(all.take(i + 1).drop_last() =~= all.take(i as int));
                assert(all.take(i + 1).last() == events@[i as int].diff@);
                assert(timelines_distinct(events@[i as int].diff.times@));
            }
            let ghost before = r;
            match self.clears_of(&events[i]) {
                Some(row) => {
                    let ghost view = row@;
                    let ghost new = row;
                    r.to_be_cleared.push(row);
                    proof {
                        assert(r@ =~= before@ + seq![view]);
                        assert(view.row_id == events@[i as int].diff.row_id);
                        assert forall|k: int| 0 <= k < r@.len() implies exists|j: int|
                            0 <= j < i + 1 && (#[trigger] events@[j]).diff.row_id == (
                            #[trigger] r@[k]).row_id by {
                            if k < before@.len() {
                                assert(r@[k] == before@[k]);
                                let j = choose|j: int|
                                    0 <= j < i && (#[trigger] events@[j]).diff.row_id
                                        == before@[k].row_id;
                                assert(events@[j].diff.row_id == r@[k].row_id);
                            } else {
                                assert(events@[i as int].diff.row_id == r@[k].row_id);
                            }
                        }
                        assert forall|a: int, b: int|
                            #![trigger r@[a], r@[b]]
                            0 <= a < b < r@.len() implies r@[a].row_id.bits
                            < r@[b].row_id.bits by {
                            assert(r@[a] == before@[a]);
                            if b < before@.len() {
                                assert(r@[b] == before@[b]);
                            } else {
                                let j = choose|j: int|
                                    0 <= j < i && (#[trigger] events@[j]).diff.row_id
                                        == before@[a].row_id;
                                assert(events@[j].diff.row_id.bits
                                    < events@[i as int].diff.row_id.bits);
                            }
                        }
                        assert forall|a: int| 0 <= a < r@.len() implies entities_in_order(
                            (#[trigger] r@[a]).entities,
                        ) by {
                            if a < before@.len() {
                                assert(r@[a] == before@[a]);
                            }
                        }
                        assert forall|a: int, e: int|
                            0 <= a < r.to_be_cleared@.len() && 0 <= e
                                < r.to_be_cleared@[a].entities@.len() implies (
                        #[trigger] r.to_be_cleared@[a].entities@[e]).timepoint.wf() by {
                            if a < before.to_be_cleared@.len() {
                                assert(before.to_be_cleared@[a].entities@[e].timepoint.wf());
                            } else {
                                assert(new.entities@[e].timepoint.wf());
                            }
                        }
                    }
                },
                None => {
                    assert(r@ =~= before@ + Seq::<ClearedRowView>::empty());
                },
            }
            i += 1;
        }
        assert(all.take(i as int) =~= all);
        r
    }
}

} // verus!

//! What a copy of a view is made of.
use crate::archetypes::{Archetype, SavedSpaceView};
use crate::emptied::{has_name, knows, lemma_all_is_listed, lemma_listed_is_there, lemma_node_at};
use crate::names::{ComponentName, TimeInt, Timeline};
use crate::path::{entity_path_hash, entity_path_parts, hash_of, lies_under};
use crate::row::{components_distinct, DataCell};
use crate::space_view::{
    copied_cells, copied_rows, entities_of_view, is_view_component, CopiedRow,
};
use crate::store::{latest_entry, LatestAtQuery, StoreView};
use crate::tree::{node_at, subtree_at, EntityTree, VisitedView};
use crate::view_id::{view_parts, SpaceViewId};
use re_log_types::EntityPath;
use vstd::prelude::*;

verus! {

/// Whether a component is one of those that a view itself is saved as.
pub open spec fn is_of_view(component: Seq<char>) -> bool {
    ||| component == "rerun.blueprint.components.SpaceViewClass"@
    ||| component == "rerun.blueprint.components.SpaceViewBlueprintIndicator"@
    ||| component == "rerun.blueprint.components.SpaceViewOrigin"@
    ||| component == "rerun.blueprint.components.Visible"@
    ||| component == "rerun.components.Name"@
}

/// Whether rows have one for an entity with a given cell.
pub open spec fn writes(rows: Seq<CopiedRow>, parts: Seq<Seq<char>>, cell: DataCell) -> bool {
    exists|r: int|
        0 <= r < rows.len() && (#[trigger] rows[r]).parts == parts && rows[r].cells.contains(cell)
}

/// Whether all paths with the same parts have the same hash, which a view at another place does
/// not.
pub open spec fn is_told_apart(parts: Seq<Seq<char>>, view: SpaceViewId) -> bool {
    &&& forall|path: EntityPath| #[trigger]
        entity_path_parts(path) == parts ==> entity_path_hash(path) == hash_of(parts)
    &&& hash_of(parts) == hash_of(view_parts(view)) ==> parts == view_parts(view)
}

/// Whether no component of an entity is listed twice, and what is found for each is a cell of it.
pub open spec fn is_sound_at(
    tree: EntityTree,
    store: StoreView,
    query: LatestAtQuery,
    parts: Seq<Seq<char>>,
) -> bool {
    &&& subtree_at(tree@, parts, 0) matches Some(node) ==> forall|i: int, j: int|
        #![trigger node.components[i], node.components[j]]
        0 <= i < j < node.components.len() ==> node.components[i].name@ != node.components[j].name@
    &&& forall|component: Seq<char>|
        (#[trigger] latest_entry(store, query, hash_of(parts), component)) matches Some(entry)
            ==> entry.cell.component_name@ == component
}

proof fn lemma_is_of_view(component: Seq<char>)
    ensures
        is_view_component(component) == is_of_view(component),
{
    let names = <SavedSpaceView as Archetype>::component_names();
    assert(names.len() == 5);
    assert(names[0] == "rerun.blueprint.components.SpaceViewClass"@);
    assert(names[1] == "rerun.blueprint.components.SpaceViewBlueprintIndicator"@);
    assert(names[2] == "rerun.blueprint.components.SpaceViewOrigin"@);
    assert(names[3] == "rerun.blueprint.components.Visible"@);
    assert(names[4] == "rerun.components.Name"@);
}

/// Whether a component is among some.
spec fn names(components: Seq<ComponentName>, component: Seq<char>) -> bool {
    exists|k: int| 0 <= k < components.len() && (#[trigger] components[k])@ == component
}

proof fn lemma_copied_cells(
    store: StoreView,
    query: LatestAtQuery,
    hash: u64,
    components: Seq<ComponentName>,
    is_view: bool,
)
    requires
        forall|i: int, j: int|
            #![trigger components[i], components[j]]
            0 <= i < j < components.len() ==> components[i]@ != components[j]@,
        forall|component: Seq<char>|
            (#[trigger] latest_entry(store, query, hash, component)) matches Some(entry)
                ==> entry.cell.component_name@ == component,
    ensures
        ({
            let cells = copied_cells(store, query, hash, components, is_view);
            &&& components_distinct(cells)
            &&& forall|k: int|
                0 <= k < cells.len() ==> {
                    let component = (#[trigger] cells[k]).component_name@;
                    &&& names(components, component)
                    &&& !(is_view && is_of_view(component))
                    &&& latest_entry(store, query, hash, component) matches Some(entry)
                    &&& entry.cell == cells[k]
                }
            &&& forall|component: Seq<char>| #[trigger]
                names(components, component) && !(is_view && is_of_view(component)) ==> {
                    latest_entry(store, query, hash, component) matches Some(entry)
                        ==> cells.contains(entry.cell)
                }
        }),
    decreases components.len(),
{
    let cells = copied_cells(store, query, hash, components, is_view);
    if components.len() > 0 {
        let init = components.drop_last();
        let last = components.last()@;
        assert forall|i: int, j: int|
            #![trigger init[i], init[j]]
            0 <= i < j < init.len() implies init[i]@ != init[j]@ by {
            assert(components[i]@ != components[j]@);
        }
        lemma_copied_cells(store, query, hash, init, is_view);
        lemma_is_of_view(last);
        let rest = copied_cells(store, query, hash, init, is_view);
        assert(components[components.len() - 1]@ == last);
        assert forall|k: int| 0 <= k < cells.len() implies {
            let component = (#[trigger] cells[k]).component_name@;
            &&& names(components, component)
            &&& !(is_view && is_of_view(component))
            &&& latest_entry(store, query, hash, component) matches Some(entry)
            &&& entry.cell == cells[k]
        } by {
            if k < rest.len() {
                assert(cells[k] == rest[k]);
                assert(names(init, rest[k].component_name@));
                let i = choose|i: int|
                    0 <= i < init.len() && (#[trigger] init[i])@ == rest[k].component_name@;
                assert(components[i]@ == rest[k].component_name@);
            }
        }
        assert forall|i: int, j: int|
            #![trigger cells[i], cells[j]]
            0 <= i < j < cells.len() implies cells[i].component_name@
            != cells[j].component_name@ by {
            assert(cells[i] == rest[i]);
            if j < rest.len() {
                assert(cells[j] == rest[j]);
            } else {
                assert(names(init, rest[i].component_name@));
                let k = choose|k: int|
                    0 <= k < init.len() && (#[trigger] init[k])@ == rest[i].component_name@;
                assert(components[k]@ != components[components.len() - 1]@);
            }
        }
        assert forall|component: Seq<char>| #[trigger]
            names(components, component) && !(is_view && is_of_view(component)) implies {
            latest_entry(store, query, hash, component) matches Some(entry) ==> cells.contains(
                entry.cell,
            )
        } by {
            if let Some(entry) = latest_entry(store, query, hash, component) {
                let k = choose|k: int|
                    0 <= k < components.len() && (#[trigger] components[k])@ == component;
                if k < init.len() {
                    assert(init[k]@ == component);
                    assert(names(init, component));
                    assert(rest.contains(entry.cell));
                    let c = choose|c: int| 0 <= c < rest.len() && rest[c] == entry.cell;
                    assert(cells[c] == entry.cell);
                } else {
                    assert(cells[rest.len() as int] == entry.cell);
                }
            }
        }
    }
}

/// The row that is made of what is found at one entity.
spec fn row_of(
    store: StoreView,
    query: LatestAtQuery,
    entity: VisitedView,
    from: SpaceViewId,
    to: SpaceViewId,
    times: Seq<(Timeline, TimeInt)>,
) -> CopiedRow {
    CopiedRow {
        times,
        parts: view_parts(to) + entity_path_parts(entity.path).skip(
            view_parts(from).len() as int,
        ),
        cells: copied_cells(
            store,
            query,
            entity_path_hash(entity.path),
            entity.components,
            entity_path_hash(entity.path) == hash_of(view_parts(from)),
        ),
    }
}

proof fn lemma_copied_rows_have(
    store: StoreView,
    query: LatestAtQuery,
    visited: Seq<VisitedView>,
    from: SpaceViewId,
    to: SpaceViewId,
    times: Seq<(Timeline, TimeInt)>,
    n: int,
) -> (r: int)
    requires
        0 <= n < visited.len(),
        row_of(store, query, visited[n], from, to, times).cells.len() > 0,
        components_distinct(row_of(store, query, visited[n], from, to, times).cells),
    ensures
        0 <= r < copied_rows(store, query, visited, from, to, times).len(),
        copied_rows(store, query, visited, from, to, times)[r] == row_of(
            store,
            query,
            visited[n],
            from,
            to,
            times,
        ),
    decreases visited.len(),
{
    let init = visited.drop_last();
    if n < init.len() {
        lemma_copied_rows_have(store, query, init, from, to, times, n)
    } else {
        copied_rows(store, query, init, from, to, times).len() as int
    }
}

proof fn lemma_copied_rows_are(
    store: StoreView,
    query: LatestAtQuery,
    visited: Seq<VisitedView>,
    from: SpaceViewId,
    to: SpaceViewId,
    times: Seq<(Timeline, TimeInt)>,
    r: int,
) -> (n: int)
    requires
        0 <= r < copied_rows(store, query, visited, from, to, times).len(),
    ensures
        0 <= n < visited.len(),
        copied_rows(store, query, visited, from, to, times)[r] == row_of(
            store,
            query,
            visited[n],
            from,
            to,
            times,
        ),
    decreases visited.len(),
{
    let init = visited.drop_last();
    let rest = copied_rows(store, query, init, from, to, times);
    if r < rest.len() {
        lemma_copied_rows_are(store, query, init, from, to, times, r)
    } else {
        init.len() as int
    }
}

/// Law: a copy of a view writes, for the view and for every entity below it, the latest cell of
/// every component that is known of that entity, at the same place below the new view. It leaves
/// out those that the view itself is saved as.
pub proof fn law_copies_hold_everything(
    tree: EntityTree,
    store: StoreView,
    query: LatestAtQuery,
    from: SpaceViewId,
    to: SpaceViewId,
    times: Seq<(Timeline, TimeInt)>,
    parts: Seq<Seq<char>>,
    component: Seq<char>,
)
    requires
        tree.wf(),
        lies_under(parts, view_parts(from)),
        is_told_apart(parts, from),
        is_sound_at(tree, store, query, parts),
        knows(tree@, parts, component),
        !(parts == view_parts(from) && is_of_view(component)),
        latest_entry(store, query, hash_of(parts), component) is Some,
    ensures
        writes(
            copied_rows(store, query, entities_of_view(tree, from), from, to, times),
            view_parts(to) + parts.skip(view_parts(from).len() as int),
            latest_entry(store, query, hash_of(parts), component)->0.cell,
        ),
{
    let base = view_parts(from);
    let visited = entities_of_view(tree, from);
    assert(base.take(0) =~= Seq::empty());
    lemma_node_at(tree, base, 0, parts);
    let node = node_at(tree, base, 0)->0;
    let n = lemma_all_is_listed(node, base, parts);
    let entity = visited[n];
    let found = subtree_at(tree@, parts, 0)->0;
    let hash = entity_path_hash(entity.path);
    assert(entity_path_parts(entity.path) == parts);
    assert(hash == hash_of(parts));
    assert forall|i: int, j: int|
        #![trigger entity.components[i], entity.components[j]]
        0 <= i < j < entity.components.len() implies entity.components[i]@
        != entity.components[j]@ by {
        assert(found.components[i].name@ != found.components[j].name@);
    }
    assert(names(entity.components, component)) by {
        let k = choose|k: int|
            0 <= k < found.components.len() && (#[trigger] found.components[k]).name@ == component;
        assert(entity.components[k]@ == component);
    }
    let is_view = hash == hash_of(base);
    lemma_copied_cells(store, query, hash, entity.components, is_view);
    let cells = copied_cells(store, query, hash, entity.components, is_view);
    assert(cells.contains(latest_entry(store, query, hash, component)->0.cell));
    let r = lemma_copied_rows_have(store, query, visited, from, to, times, n);
    assert(copied_rows(store, query, visited, from, to, times)[r].cells == cells);
}

/// Law: a copy of a view writes nothing but what is found for the view and the entities below it,
/// at the times that it is told to.
pub proof fn law_copies_hold_nothing_else(
    tree: EntityTree,
    store: StoreView,
    query: LatestAtQuery,
    from: SpaceViewId,
    to: SpaceViewId,
    times: Seq<(Timeline, TimeInt)>,
    r: int,
)
    requires
        tree.wf(),
        0 <= r < copied_rows(store, query, entities_of_view(tree, from), from, to, times).len(),
        forall|parts: Seq<Seq<char>>| #[trigger]
            lies_under(parts, view_parts(from)) ==> is_told_apart(parts, from) && is_sound_at(
                tree,
                store,
                query,
                parts,
            ),
    ensures
        ({
            let row = copied_rows(store, query, entities_of_view(tree, from), from, to, times)[r];
            &&& row.times == times
            &&& row.cells.len() > 0
            &&& exists|parts: Seq<Seq<char>>|
                {
                    &&& #[trigger] lies_under(parts, view_parts(from))
                    &&& row.parts == view_parts(to) + parts.skip(view_parts(from).len() as int)
                    &&& forall|k: int|
                        0 <= k < row.cells.len() ==> {
                            let component = (#[trigger] row.cells[k]).component_name@;
                            &&& knows(tree@, parts, component)
                            &&& !(parts == view_parts(from) && is_of_view(component))
                            &&& latest_entry(store, query, hash_of(parts), component)
                                matches Some(entry)
                            &&& entry.cell == row.cells[k]
                        }
                }
        }),
{
    let base = view_parts(from);
    let visited = entities_of_view(tree, from);
    let row = copied_rows(store, query, visited, from, to, times)[r];
    let n = lemma_copied_rows_are(store, query, visited, from, to, times, r);
    lemma_copied_rows_not_empty(store, query, visited, from, to, times, r);
    assert(base.take(0) =~= Seq::empty());
    let entity = visited[n];
    let parts = entity_path_parts(entity.path);
    assert(base.take(base.len() as int) =~= base);
    lemma_node_at(tree, base, 0, base);
    let node = node_at(tree, base, 0)->0;
    lemma_listed_is_there(node, base, n);
    assert(lies_under(parts, base));
    lemma_node_at(tree, base, 0, parts);
    let found = subtree_at(tree@, parts, 0)->0;
    assert(is_told_apart(parts, from) && is_sound_at(tree, store, query, parts));
    let hash = entity_path_hash(entity.path);
    assert(hash == hash_of(parts));
    assert forall|i: int, j: int|
        #![trigger entity.components[i], entity.components[j]]
        0 <= i < j < entity.components.len() implies entity.components[i]@
        != entity.components[j]@ by {
        assert(found.components[i].name@ != found.components[j].name@);
    }
    let is_view = hash == hash_of(base);
    lemma_copied_cells(store, query, hash, entity.components, is_view);
    assert forall|k: int| 0 <= k < row.cells.len() implies {
        let component = (#[trigger] row.cells[k]).component_name@;
        &&& knows(tree@, parts, component)
        &&& !(parts == view_parts(from) && is_of_view(component))
        &&& latest_entry(store, query, hash_of(parts), component) matches Some(entry)
        &&& entry.cell == row.cells[k]
    } by {
        let component = row.cells[k].component_name@;
        assert(names(entity.components, component));
        let i = choose|i: int|
            0 <= i < entity.components.len() && (#[trigger] entity.components[i])@ == component;
        assert(found.components[i].name@ == component);
        assert(has_name(found.components, component));
    }
}

proof fn lemma_copied_rows_not_empty(
    store: StoreView,
    query: LatestAtQuery,
    visited: Seq<VisitedView>,
    from: SpaceViewId,
    to: SpaceViewId,
    times: Seq<(Timeline, TimeInt)>,
    r: int,
)
    requires
        0 <= r < copied_rows(store, query, visited, from, to, times).len(),
    ensures
        copied_rows(store, query, visited, from, to, times)[r].cells.len() > 0,
    decreases visited.len(),
{
    let init = visited.drop_last();
    let rest = copied_rows(store, query, init, from, to, times);
    if r < rest.len() {
        lemma_copied_rows_not_empty(store, query, init, from, to, times, r);
    }
}

} // verus!

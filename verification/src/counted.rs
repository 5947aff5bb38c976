//! How often things are counted: once for everything that is added, until it is removed.
use crate::bucket::lemma_cell_of_missing;
use crate::clear::{clear_flag, cleared_by};
use crate::emptied::{
    lemma_child_index, lemma_child_index_is, lemma_child_position, lemma_component_index,
    lemma_other_child,
};
use crate::entity_db::DbView;
use crate::gc::GarbageCollectionOptions;
use crate::ingest::{
    cascade_rows, lemma_metas_below_bounds, row_step, row_step_with, Cascade,
};
use crate::names::{RowId, TimeInt, Timeline};
use crate::path::{entity_path_hash, entity_path_parts, lies_under};
use crate::retry::{
    inserted, law_retries_change_only_the_counter, DEFAULT_INSERT_ROW_STEP_SIZE,
    MAX_INSERT_ROW_ATTEMPTS,
};
use crate::row::{has_component, DataCell, DiffView, RowView};
use crate::stats::tables_rows;
use crate::store::{
    addition_of, slot_index, slots_up_to, store_with, table_or_empty, tables_with,
    DataStoreConfig, StoreView, TableSlot,
};
use crate::table::table_with;
use crate::times::{
    all_in_order, count_of, histograms_after, law_counts_follow_rows, share_of, times_after,
    HistogramView,
};
use crate::tree::{
    child_index, component_index, components_changed, info_changed, static_cells,
    static_cells_below, static_cells_of_children, subtree_at, tree_after, tree_changed,
    ComponentInfo, EntityTree, TreeView,
};
use crate::upkeep::{gc_diffs, gc_step};
use vstd::prelude::*;

verus! {

// --- Times.

/// How often a time is among some.
pub open spec fn num_at(
    times: Seq<(Timeline, TimeInt)>,
    timeline: Timeline,
    time: TimeInt,
) -> nat {
    times.filter(|at: (Timeline, TimeInt)| at.0@ == timeline@ && at.1 == time).len()
}

/// By how much events change the count of a time, if each counts once or once for each cell.
pub open spec fn tally(
    diffs: Seq<DiffView>,
    timeline: Timeline,
    time: TimeInt,
    by_cells: bool,
) -> int
    decreases diffs.len(),
{
    if diffs.len() == 0 {
        0
    } else {
        let diff = diffs.last();
        let weight = if by_cells {
            diff.cells.len() as int
        } else {
            1
        };
        let more = num_at(diff.times, timeline, time) * weight;
        tally(diffs.drop_last(), timeline, time, by_cells) + if diff.kind is Addition {
            more
        } else {
            -more
        }
    }
}

/// Whether there is never less than nothing, or more than can be counted.
pub open spec fn can_be_counted(
    all: Seq<HistogramView>,
    diffs: Seq<DiffView>,
    timeline: Timeline,
    time: TimeInt,
    by_cells: bool,
) -> bool {
    forall|n: int|
        0 <= n <= diffs.len() ==> 0 <= count_of(all, timeline, time) + tally(
            #[trigger] diffs.take(n),
            timeline,
            time,
            by_cells,
        ) <= u64::MAX
}

proof fn lemma_share(
    times: Seq<(Timeline, TimeInt)>,
    timeline: Timeline,
    time: TimeInt,
    weight: int,
)
    ensures
        share_of(times, timeline, time, weight) == num_at(times, timeline, time) * weight,
    decreases times.len(),
{
    reveal(Seq::filter);
    if times.len() > 0 {
        let init = times.drop_last();
        lemma_share(init, timeline, time, weight);
        let n = num_at(init, timeline, time);
        let m = num_at(times, timeline, time);
        assert(m == n || m == n + 1);
        assert(m == n + 1 <==> times.last().0@ == timeline@ && times.last().1 == time);
        assert((n + 1) * weight == n * weight + weight) by (nonlinear_arith);
    } else {
        let n = num_at(times, timeline, time);
        assert(n * weight == 0) by (nonlinear_arith)
            requires
                n == 0,
        ;
    }
}

proof fn lemma_events_counted(
    all: Seq<HistogramView>,
    diffs: Seq<DiffView>,
    timeline: Timeline,
    time: TimeInt,
    by_cells: bool,
)
    requires
        all_in_order(all),
        can_be_counted(all, diffs, timeline, time, by_cells),
    ensures
        ({
            let after = if by_cells {
                histograms_after(all, diffs)
            } else {
                times_after(all, diffs)
            };
            &&& all_in_order(after)
            &&& count_of(after, timeline, time) == count_of(all, timeline, time) + tally(
                diffs,
                timeline,
                time,
                by_cells,
            )
        }),
    decreases diffs.len(),
{
    if diffs.len() > 0 {
        let init = diffs.drop_last();
        assert(can_be_counted(all, init, timeline, time, by_cells)) by {
            assert forall|n: int| 0 <= n <= init.len() implies 0 <= count_of(all, timeline, time)
                + tally(#[trigger] init.take(n), timeline, time, by_cells) <= u64::MAX by {
                assert(init.take(n) =~= diffs.take(n));
            }
        }
        lemma_events_counted(all, init, timeline, time, by_cells);
        let diff = diffs.last();
        let weight = if by_cells {
            diff.cells.len() as int
        } else {
            1
        };
        let before = if by_cells {
            histograms_after(all, init)
        } else {
            times_after(all, init)
        };
        assert(diffs.take(diffs.len() as int) =~= diffs);
        assert(init.take(init.len() as int) =~= init);
        assert(diffs.take(diffs.len() - 1) =~= init);
        lemma_share(diff.times, timeline, time, weight);
        law_counts_follow_rows(
            before,
            diff.times,
            diff.kind is Addition,
            weight,
            timeline,
            time,
        );
    }
}

/// Law: how often a time of a timeline is counted changes by one for every row that is added at
/// that time or removed from it, and by the number of its cells where cells are counted. This is as
/// long as nothing is removed that was not counted, and there is not more than can be counted.
pub proof fn law_events_are_counted(
    all: Seq<HistogramView>,
    diffs: Seq<DiffView>,
    timeline: Timeline,
    time: TimeInt,
)
    requires
        all_in_order(all),
    ensures
        can_be_counted(all, diffs, timeline, time, false) ==> count_of(
            times_after(all, diffs),
            timeline,
            time,
        ) == count_of(all, timeline, time) + tally(diffs, timeline, time, false),
        can_be_counted(all, diffs, timeline, time, true) ==> count_of(
            histograms_after(all, diffs),
            timeline,
            time,
        ) == count_of(all, timeline, time) + tally(diffs, timeline, time, true),
{
    if can_be_counted(all, diffs, timeline, time, false) {
        lemma_events_counted(all, diffs, timeline, time, false);
    }
    if can_be_counted(all, diffs, timeline, time, true) {
        lemma_events_counted(all, diffs, timeline, time, true);
    }
}

// --- Components.

/// How many of some cells are of a component.
pub open spec fn num_of(cells: Seq<DataCell>, component: Seq<char>) -> nat {
    cells.filter(|cell: DataCell| cell.component_name@ == component).len()
}

/// How many cells of a component are counted, those that are static or the others.
pub open spec fn num_listed(
    components: Seq<ComponentInfo>,
    component: Seq<char>,
    is_static: bool,
) -> int {
    match component_index(components, component) {
        Some(i) => if is_static {
            components[i].num_static as int
        } else {
            components[i].num_temporal as int
        },
        None => 0,
    }
}

/// How many cells of a component a tree counts at an entity, those that are static or the others.
pub open spec fn num_counted(
    tree: TreeView,
    parts: Seq<Seq<char>>,
    component: Seq<char>,
    is_static: bool,
) -> int {
    counted_from(tree, parts, 0, component, is_static)
}

pub open spec fn counted_from(
    tree: TreeView,
    parts: Seq<Seq<char>>,
    depth: int,
    component: Seq<char>,
    is_static: bool,
) -> int {
    match subtree_at(tree, parts, depth) {
        Some(node) => num_listed(node.components, component, is_static),
        None => 0,
    }
}

/// By how much a row changes the count of the static cells, or of the others, of a component of an
/// entity.
pub open spec fn change_of(
    diff: DiffView,
    parts: Seq<Seq<char>>,
    component: Seq<char>,
    is_static: bool,
) -> int {
    if entity_path_parts(diff.entity_path) == parts && (diff.times.len() == 0) == is_static {
        if diff.kind is Addition {
            num_of(diff.cells, component) as int
        } else {
            -num_of(diff.cells, component)
        }
    } else {
        0
    }
}

proof fn lemma_component_index_alike(
    a: Seq<ComponentInfo>,
    b: Seq<ComponentInfo>,
    component: Seq<char>,
)
    requires
        a.len() == b.len(),
        forall|k: int| 0 <= k < a.len() ==> (#[trigger] a[k]).name@ == b[k].name@,
    ensures
        component_index(a, component) == component_index(b, component),
    decreases a.len(),
{
    if a.len() > 0 {
        assert(a[a.len() - 1].name@ == b[b.len() - 1].name@);
        assert forall|k: int| 0 <= k < a.drop_last().len() implies (
        #[trigger] a.drop_last()[k]).name@ == b.drop_last()[k].name@ by {
            assert(a[k].name@ == b[k].name@);
        }
        lemma_component_index_alike(a.drop_last(), b.drop_last(), component);
    }
}

proof fn lemma_components_counted(
    components: Seq<ComponentInfo>,
    cells: Seq<DataCell>,
    add: bool,
    cells_are_static: bool,
    component: Seq<char>,
    is_static: bool,
)
    requires
        cells_are_static == is_static && add ==> num_listed(components, component, is_static)
            + num_of(cells, component) <= u64::MAX,
        cells_are_static == is_static && !add ==> num_of(cells, component) <= num_listed(
            components,
            component,
            is_static,
        ),
    ensures
        num_listed(
            components_changed(components, cells, add, cells_are_static),
            component,
            is_static,
        ) == num_listed(components, component, is_static) + if cells_are_static != is_static {
            0
        } else if add {
            num_of(cells, component) as int
        } else {
            -num_of(cells, component)
        },
    decreases cells.len(),
{
    reveal(Seq::filter);
    if cells.len() > 0 {
        let init = cells.drop_last();
        let name = cells.last().component_name;
        lemma_components_counted(components, init, add, cells_are_static, component, is_static);
        let rest = components_changed(components, init, add, cells_are_static);
        let all = components_changed(components, cells, add, cells_are_static);
        lemma_component_index(rest, name@);
        lemma_component_index(rest, component);
        match component_index(rest, name@) {
            Some(i) => {
                let new = info_changed(rest[i], add, cells_are_static);
                assert(all == rest.update(i, new));
                assert forall|k: int| 0 <= k < rest.len() implies (#[trigger] rest[k]).name@
                    == all[k].name@ by {}
                lemma_component_index_alike(rest, all, component);
                if name@ == component {
                    assert(component_index(all, component) == Some(i));
                }
            },
            None => {
                if add {
                    let new = info_changed(
                        ComponentInfo { name, num_static: 0, num_temporal: 0 },
                        add,
                        cells_are_static,
                    );
                    assert(all == rest.push(new));
                    assert(all.drop_last() =~= rest);
                    if let Some(j) = component_index(rest, component) {
                        assert(all[j] == rest[j]);
                    }
                }
            },
        }
    }
}

proof fn lemma_tree_counted(
    tree: TreeView,
    path: Seq<Seq<char>>,
    depth: int,
    diff: DiffView,
    parts: Seq<Seq<char>>,
    component: Seq<char>,
    is_static: bool,
)
    requires
        0 <= depth <= path.len(),
        depth <= parts.len(),
        path == entity_path_parts(diff.entity_path),
        forall|d: int| 0 <= d < depth ==> path[d] == parts[d],
        0 <= counted_from(tree, parts, depth, component, is_static) + change_of(
            diff,
            parts,
            component,
            is_static,
        ) <= u64::MAX,
    ensures
        counted_from(tree_changed(tree, path, depth, diff), parts, depth, component, is_static)
            == counted_from(tree, parts, depth, component, is_static) + change_of(
            diff,
            parts,
            component,
            is_static,
        ),
    decreases path.len() - depth,
{
    let add = diff.kind is Addition;
    let after = tree_changed(tree, path, depth, diff);
    if depth == path.len() {
        if depth == parts.len() {
            assert(path =~= parts);
            lemma_components_counted(
                tree.components,
                diff.cells,
                add,
                diff.times.len() == 0,
                component,
                is_static,
            );
        } else {
            assert(path.len() != parts.len());
        }
    } else {
        let name = path[depth];
        lemma_child_index(tree.children, name);
        match child_index(tree.children, name) {
            Some(i) => {
                let child = tree_changed(tree.children[i], path, depth + 1, diff);
                assert(child.name == tree.children[i].name);
                if depth < parts.len() && parts[depth] == name {
                    lemma_tree_counted(
                        tree.children[i],
                        path,
                        depth + 1,
                        diff,
                        parts,
                        component,
                        is_static,
                    );
                    assert forall|j: int| 0 <= j < i implies (#[trigger] after.children[j]).name
                        != name by {
                        assert(tree.children[j].name != name);
                    }
                    lemma_child_index_is(after.children, name, i);
                } else if depth < parts.len() {
                    lemma_child_index(tree.children, parts[depth]);
                    lemma_child_index(after.children, parts[depth]);
                    match child_index(tree.children, parts[depth]) {
                        Some(j) => {
                            assert forall|k: int| 0 <= k < j implies (
                            #[trigger] after.children[k]).name != parts[depth] by {
                                assert(tree.children[k].name != parts[depth]);
                            }
                            assert(after.children[j] == tree.children[j]);
                            lemma_child_index_is(after.children, parts[depth], j);
                        },
                        None => {
                            assert forall|k: int| 0 <= k < after.children.len() implies (
                            #[trigger] after.children[k]).name != parts[depth] by {
                                assert(tree.children[k].name != parts[depth]);
                            }
                            if let Some(j) = child_index(after.children, parts[depth]) {
                                assert(after.children[j].name != parts[depth]);
                            }
                        },
                    }
                }
            },
            None => {
                if add {
                    let leaf = crate::tree::leaf(name);
                    let child = tree_changed(leaf, path, depth + 1, diff);
                    let at = crate::tree::child_position(tree.children, name);
                    lemma_child_position(tree.children, name);
                    assert(child.name == name);
                    if depth < parts.len() && parts[depth] == name {
                        assert(counted_from(leaf, parts, depth + 1, component, is_static) == 0);
                        lemma_tree_counted(
                            leaf,
                            path,
                            depth + 1,
                            diff,
                            parts,
                            component,
                            is_static,
                        );
                        assert forall|j: int| 0 <= j < at implies (
                        #[trigger] after.children[j]).name != name by {
                            assert(tree.children[j].name != name);
                        }
                        assert(after.children[at] == child);
                        lemma_child_index_is(after.children, name, at);
                    } else if depth < parts.len() {
                        lemma_other_child(tree.children, after.children, at, child, parts[depth]);
                    }
                }
            },
        }
        if depth < parts.len() && parts[depth] != name || depth == parts.len() {
            assert(path != parts);
        }
    }
}

/// By how much events change the count of the static cells, or of the others, of a component of an
/// entity.
pub open spec fn change_of_all(
    diffs: Seq<DiffView>,
    parts: Seq<Seq<char>>,
    component: Seq<char>,
    is_static: bool,
) -> int
    decreases diffs.len(),
{
    if diffs.len() == 0 {
        0
    } else {
        change_of_all(diffs.drop_last(), parts, component, is_static) + change_of(
            diffs.last(),
            parts,
            component,
            is_static,
        )
    }
}

/// Whether there are never fewer cells of a component than none, or more than can be counted.
pub open spec fn cells_can_be_counted(
    tree: TreeView,
    diffs: Seq<DiffView>,
    parts: Seq<Seq<char>>,
    component: Seq<char>,
    is_static: bool,
) -> bool {
    forall|n: int|
        0 <= n <= diffs.len() ==> 0 <= num_counted(tree, parts, component, is_static)
            + change_of_all(#[trigger] diffs.take(n), parts, component, is_static) <= u64::MAX
}

/// Law: a tree counts every cell that is added to an entity until it is removed, the static ones
/// and the others apart. This is as long as nothing is removed that was not counted, and there is
/// not more than can be counted.
pub proof fn law_trees_count_cells(
    tree: TreeView,
    diffs: Seq<DiffView>,
    parts: Seq<Seq<char>>,
    component: Seq<char>,
    is_static: bool,
)
    requires
        cells_can_be_counted(tree, diffs, parts, component, is_static),
    ensures
        num_counted(tree_after(tree, diffs), parts, component, is_static) == num_counted(
            tree,
            parts,
            component,
            is_static,
        ) + change_of_all(diffs, parts, component, is_static),
    decreases diffs.len(),
{
    if diffs.len() > 0 {
        let init = diffs.drop_last();
        assert(cells_can_be_counted(tree, init, parts, component, is_static)) by {
            assert forall|n: int| 0 <= n <= init.len() implies 0 <= num_counted(
                tree,
                parts,
                component,
                is_static,
            ) + change_of_all(#[trigger] init.take(n), parts, component, is_static) <= u64::MAX by {
                assert(init.take(n) =~= diffs.take(n));
            }
        }
        law_trees_count_cells(tree, init, parts, component, is_static);
        assert(diffs.take(diffs.len() as int) =~= diffs);
        lemma_tree_counted(
            tree_after(tree, init),
            entity_path_parts(diffs.last().entity_path),
            0,
            diffs.last(),
            parts,
            component,
            is_static,
        );
    }
}

// --- Entities.

proof fn lemma_tree_reaches(
    tree: TreeView,
    path: Seq<Seq<char>>,
    depth: int,
    diff: DiffView,
    parts: Seq<Seq<char>>,
)
    requires
        0 <= depth <= path.len(),
        depth <= parts.len(),
        forall|d: int| 0 <= d < depth ==> path[d] == parts[d],
    ensures
        subtree_at(tree_changed(tree, path, depth, diff), parts, depth) is Some <==> subtree_at(
            tree,
            parts,
            depth,
        ) is Some || (diff.kind is Addition && lies_under(path, parts)),
    decreases path.len() - depth,
{
    let add = diff.kind is Addition;
    let after = tree_changed(tree, path, depth, diff);
    if depth == parts.len() {
        assert(path.take(parts.len() as int) =~= parts);
    } else if depth < path.len() {
        let name = path[depth];
        if lies_under(path, parts) {
            assert(path.take(parts.len() as int)[depth] == parts[depth]);
        }
        lemma_child_index(tree.children, name);
        match child_index(tree.children, name) {
            Some(i) => {
                let child = tree_changed(tree.children[i], path, depth + 1, diff);
                assert(child.name == tree.children[i].name);
                if parts[depth] == name {
                    lemma_tree_reaches(tree.children[i], path, depth + 1, diff, parts);
                    assert forall|j: int| 0 <= j < i implies (#[trigger] after.children[j]).name
                        != name by {
                        assert(tree.children[j].name != name);
                    }
                    lemma_child_index_is(after.children, name, i);
                } else {
                    lemma_child_index(tree.children, parts[depth]);
                    lemma_child_index(after.children, parts[depth]);
                    match child_index(tree.children, parts[depth]) {
                        Some(j) => {
                            assert forall|k: int| 0 <= k < j implies (
                            #[trigger] after.children[k]).name != parts[depth] by {
                                assert(tree.children[k].name != parts[depth]);
                            }
                            assert(after.children[j] == tree.children[j]);
                            lemma_child_index_is(after.children, parts[depth], j);
                        },
                        None => {
                            assert forall|k: int| 0 <= k < after.children.len() implies (
                            #[trigger] after.children[k]).name != parts[depth] by {
                                assert(tree.children[k].name != parts[depth]);
                            }
                            if let Some(j) = child_index(after.children, parts[depth]) {
                                assert(after.children[j].name != parts[depth]);
                            }
                        },
                    }
                }
            },
            None => {
                if add {
                    let leaf = crate::tree::leaf(name);
                    let child = tree_changed(leaf, path, depth + 1, diff);
                    let at = crate::tree::child_position(tree.children, name);
                    lemma_child_position(tree.children, name);
                    assert(child.name == name);
                    if parts[depth] == name {
                        lemma_tree_reaches(leaf, path, depth + 1, diff, parts);
                        if depth + 1 == parts.len() {
                            assert(path.take(parts.len() as int) =~= parts);
                        }
                        assert forall|j: int| 0 <= j < at implies (
                        #[trigger] after.children[j]).name != name by {
                            assert(tree.children[j].name != name);
                        }
                        assert(after.children[at] == child);
                        lemma_child_index_is(after.children, name, at);
                    } else {
                        lemma_other_child(tree.children, after.children, at, child, parts[depth]);
                    }
                }
            },
        }
    }
}

/// Law: an entity exists if and only if something was ever logged to it or to anything below it. It
/// stays when what was logged is removed.
pub proof fn law_entities_exist_once_logged(
    tree: TreeView,
    diffs: Seq<DiffView>,
    parts: Seq<Seq<char>>,
)
    ensures
        subtree_at(tree_after(tree, diffs), parts, 0) is Some <==> subtree_at(
            tree,
            parts,
            0,
        ) is Some || exists|d: int|
            0 <= d < diffs.len() && (#[trigger] diffs[d]).kind is Addition && lies_under(
                entity_path_parts(diffs[d].entity_path),
                parts,
            ),
    decreases diffs.len(),
{
    if diffs.len() > 0 {
        let init = diffs.drop_last();
        let n = init.len() as int;
        law_entities_exist_once_logged(tree, init, parts);
        lemma_tree_reaches(
            tree_after(tree, init),
            entity_path_parts(diffs.last().entity_path),
            0,
            diffs.last(),
            parts,
        );
        if exists|d: int|
            0 <= d < init.len() && (#[trigger] init[d]).kind is Addition && lies_under(
                entity_path_parts(init[d].entity_path),
                parts,
            ) {
            let d = choose|d: int|
                0 <= d < init.len() && (#[trigger] init[d]).kind is Addition && lies_under(
                    entity_path_parts(init[d].entity_path),
                    parts,
                );
            assert(diffs[d] == init[d]);
        }
        if exists|d: int|
            0 <= d < diffs.len() && (#[trigger] diffs[d]).kind is Addition && lies_under(
                entity_path_parts(diffs[d].entity_path),
                parts,
            ) {
            let d = choose|d: int|
                0 <= d < diffs.len() && (#[trigger] diffs[d]).kind is Addition && lies_under(
                    entity_path_parts(diffs[d].entity_path),
                    parts,
                );
            if d < n {
                assert(diffs[d] == init[d]);
            }
        }
        assert(diffs[n] == diffs.last());
    }
}

// --- Databases.

/// Law: once a row was added to a database, and it is no clear, each of its times counts once more,
/// and once more for each of its cells where cells are counted. Every component of it counts once
/// more for each cell of it. Nothing else changes in any count.
pub proof fn law_added_rows_are_counted(
    before: DbView,
    config: DataStoreConfig,
    row: RowView,
    after: DbView,
    timeline: Timeline,
    time: TimeInt,
    parts: Seq<Seq<char>>,
    component: Seq<char>,
    is_static: bool,
)
    requires
        row_step(before, config, row, after, None),
        !has_component(row.cells, "rerun.components.ClearIsRecursive"@),
        all_in_order(before.times),
        all_in_order(before.histograms),
        count_of(before.times, timeline, time) + num_at(row.times, timeline, time) <= u64::MAX,
        count_of(before.histograms, timeline, time) + num_at(row.times, timeline, time)
            * row.cells.len() <= u64::MAX,
        num_counted(before.tree, parts, component, is_static) + num_of(row.cells, component)
            <= u64::MAX,
    ensures
        count_of(after.times, timeline, time) == count_of(before.times, timeline, time) + num_at(
            row.times,
            timeline,
            time,
        ),
        count_of(after.histograms, timeline, time) == count_of(before.histograms, timeline, time)
            + num_at(row.times, timeline, time) * row.cells.len(),
        num_counted(after.tree, parts, component, is_static) == num_counted(
            before.tree,
            parts,
            component,
            is_static,
        ) + if entity_path_parts(row.entity_path) == parts && (row.times.len() == 0)
            == is_static {
            num_of(row.cells, component) as int
        } else {
            0
        },
{
    let (randoms, tree, more, now) = choose|
        randoms: Seq<u64>,
        tree: EntityTree,
        more: Seq<Seq<Seq<u64>>>,
        now: Option<u64>,
    | #[trigger]
        row_step_with(before, config, row, after, None, randoms, tree, more, now);
    law_retries_change_only_the_counter(
        before.store,
        config,
        row,
        MAX_INSERT_ROW_ATTEMPTS as nat,
        DEFAULT_INSERT_ROW_STEP_SIZE,
        randoms,
    );
    let first = inserted(
        before.store,
        config,
        row,
        MAX_INSERT_ROW_ATTEMPTS as nat,
        DEFAULT_INSERT_ROW_STEP_SIZE,
        randoms,
    );
    let added = first.outcome->Ok_0;
    let diff = addition_of(added);
    lemma_cell_of_missing(row.cells, "rerun.components.ClearIsRecursive"@);
    assert(clear_flag(row.cells) is None);
    assert(cleared_by(tree, diff) =~= Seq::empty());
    let end = cascade_rows(
        Cascade { store: first.store, row_id: RowId { bits: 0 }, diffs: Seq::empty() },
        config,
        first.store.types,
        cleared_by(tree, diff),
        more,
    );
    assert(end.diffs =~= Seq::empty());
    let one = seq![diff];
    assert(one.drop_last() =~= Seq::empty());
    reveal_with_fuel(tally, 2);
    reveal_with_fuel(change_of_all, 2);
    let none = Seq::<DiffView>::empty();
    assert forall|n: int| 0 <= n <= one.len() implies #[trigger] one.take(n) == if n == 0 {
        none
    } else {
        one
    } by {
        if n == 0 {
            assert(one.take(n) =~= none);
        } else {
            assert(one.take(n) =~= one);
        }
    }
    assert(num_at(row.times, timeline, time) * row.cells.len() >= 0) by (nonlinear_arith);
    lemma_count_not_negative(before.times, timeline, time);
    lemma_count_not_negative(before.histograms, timeline, time);
    law_events_are_counted(before.times, one, timeline, time);
    law_events_are_counted(before.histograms, one, timeline, time);
    law_trees_count_cells(before.tree, one, parts, component, is_static);
}

proof fn lemma_count_not_negative(all: Seq<HistogramView>, timeline: Timeline, time: TimeInt)
    ensures
        count_of(all, timeline, time) >= 0,
{
    if let Some(i) = crate::times::histogram_index(all, timeline) {
        lemma_count_at_not_negative(all[i].times, time);
    }
}

proof fn lemma_count_at_not_negative(times: Seq<crate::times::TimeCount>, time: TimeInt)
    ensures
        crate::times::count_at(times, time) >= 0,
    decreases times.len(),
{
    if times.len() > 0 {
        lemma_count_at_not_negative(times.drop_last(), time);
    }
}

/// Law: once a database collected garbage, what it reports no longer counts: neither at the times
/// that it tells of, nor for the cells of components.
pub proof fn law_collected_rows_no_longer_count(
    before: DbView,
    bucket_num_rows: u64,
    options: GarbageCollectionOptions,
    after: DbView,
    elapsed_nanos: spec_fn(int) -> u128,
    timeline: Timeline,
    time: TimeInt,
    parts: Seq<Seq<char>>,
    component: Seq<char>,
    is_static: bool,
)
    requires
        gc_step(before, bucket_num_rows, options, after, elapsed_nanos),
        all_in_order(before.times),
        all_in_order(before.histograms),
    ensures
        ({
            let gone = gc_diffs(before, bucket_num_rows, options, elapsed_nanos);
            &&& can_be_counted(before.times, gone, timeline, time, false) ==> count_of(
                after.times,
                timeline,
                time,
            ) == count_of(before.times, timeline, time) + tally(gone, timeline, time, false)
            &&& can_be_counted(before.histograms, gone, timeline, time, true) ==> count_of(
                after.histograms,
                timeline,
                time,
            ) == count_of(before.histograms, timeline, time) + tally(gone, timeline, time, true)
            &&& cells_can_be_counted(before.tree, gone, parts, component, is_static)
                ==> num_counted(after.tree, parts, component, is_static) == num_counted(
                before.tree,
                parts,
                component,
                is_static,
            ) + change_of_all(gone, parts, component, is_static)
        }),
{
    let gone = gc_diffs(before, bucket_num_rows, options, elapsed_nanos);
    law_events_are_counted(before.times, gone, timeline, time);
    law_events_are_counted(before.histograms, gone, timeline, time);
    if cells_can_be_counted(before.tree, gone, parts, component, is_static) {
        law_trees_count_cells(before.tree, gone, parts, component, is_static);
    }
}

// --- How much a store holds.

proof fn lemma_rows_of_updated(tables: Seq<TableSlot>, i: int, slot: TableSlot)
    requires
        0 <= i < tables.len(),
    ensures
        tables_rows(tables.update(i, slot)) == tables_rows(tables) - tables[i].table.num_rows
            + slot.table.num_rows,
    decreases tables.len(),
{
    let after = tables.update(i, slot);
    if i < tables.len() - 1 {
        assert(after.drop_last() =~= tables.drop_last().update(i, slot));
        lemma_rows_of_updated(tables.drop_last(), i, slot);
    } else {
        assert(after.drop_last() =~= tables.drop_last());
    }
}

proof fn lemma_rows_of_inserted(tables: Seq<TableSlot>, i: int, slot: TableSlot)
    requires
        0 <= i <= tables.len(),
    ensures
        tables_rows(tables.insert(i, slot)) == tables_rows(tables) + slot.table.num_rows,
    decreases tables.len(),
{
    let after = tables.insert(i, slot);
    if i < tables.len() {
        assert(after.drop_last() =~= tables.drop_last().insert(i, slot));
        lemma_rows_of_inserted(tables.drop_last(), i, slot);
    } else {
        assert(after.drop_last() =~= tables);
    }
}

proof fn lemma_slots_up_to_bounds(tables: Seq<TableSlot>, hash: u64)
    ensures
        0 <= slots_up_to(tables, hash) <= tables.len(),
    decreases tables.len(),
{
    if tables.len() > 0 {
        lemma_slots_up_to_bounds(tables.drop_last(), hash);
    }
}

proof fn lemma_rows_counted(
    tables: Seq<TableSlot>,
    config: DataStoreConfig,
    times: Seq<(Timeline, TimeInt)>,
    row: RowView,
    insert_id: u64,
)
    ensures
        tables_rows(tables_with(tables, config, times, row, insert_id)) == tables_rows(tables)
            + times.len(),
    decreases times.len(),
{
    if times.len() > 0 {
        let init = times.drop_last();
        lemma_rows_counted(tables, config, init, row, insert_id);
        let st = tables_with(tables, config, init, row, insert_id);
        let (timeline, time) = times.last();
        let hash = entity_path_hash(row.entity_path);
        let old = table_or_empty(st, hash, timeline, row.entity_path, config.store_insert_ids);
        let new = TableSlot {
            hash,
            table: table_with(
                old,
                config.indexed_bucket_num_rows,
                time.value,
                row.row_id,
                insert_id,
                row.cells,
            ),
        };
        match slot_index(st, hash, timeline@) {
            Some(i) => {
                lemma_rows_of_updated(st, i, new);
            },
            None => {
                lemma_slots_up_to_bounds(st, hash);
                lemma_rows_of_inserted(st, slots_up_to(st, hash), new);
            },
        }
    }
}

/// Law: a row that is added is registered once, and is one more row of each of the timelines that
/// it has a time on. If it has none, it is static data, of which an entity has a single row.
pub proof fn law_added_rows_show_in_the_store(
    store: StoreView,
    config: DataStoreConfig,
    row: RowView,
)
    ensures
        ({
            let after = store_with(store, config, row);
            &&& after.registry.len() == store.registry.len() + 1
            &&& tables_rows(after.tables) == tables_rows(store.tables) + row.times.len()
            &&& after.statics.len() == store.statics.len() + if row.times.len() == 0 && forall|
                i: int,
            |
                0 <= i < store.statics.len() ==> (#[trigger] store.statics[i]).hash
                    != entity_path_hash(row.entity_path) {
                1int
            } else {
                0
            }
        }),
{
    lemma_metas_below_bounds(store.registry, row.row_id);
    lemma_rows_counted(store.tables, config, row.times, row, store.insert_id);
}

// --- Static cells.

/// How many static cells are counted for some components.
pub open spec fn sum_of_static(components: Seq<ComponentInfo>) -> nat
    decreases components.len(),
{
    if components.len() == 0 {
        0
    } else {
        components[0].num_static as nat + sum_of_static(components.skip(1))
    }
}

/// How many static cells are counted for the components of an entity and everything below it.
pub open spec fn sum_below(tree: EntityTree) -> nat
    decreases tree, 0nat,
{
    sum_of_static(tree.components@) + sum_of_all(tree.children@)
}

pub open spec fn sum_of_all(trees: Seq<EntityTree>) -> nat
    decreases trees, trees.len(),
{
    if trees.len() == 0 {
        0
    } else {
        sum_of_all(trees.drop_last()) + sum_below(trees.last())
    }
}

/// A number, or the largest that fits if it is larger than that.
pub open spec fn as_far_as_it_goes(n: nat) -> int {
    if n > 0xffff_ffff_ffff_ffff {
        0xffff_ffff_ffff_ffff
    } else {
        n as int
    }
}

proof fn lemma_sum_of_static(components: Seq<ComponentInfo>)
    ensures
        components.len() > 0 ==> sum_of_static(components) == sum_of_static(components.drop_last())
            + components.last().num_static,
    decreases components.len(),
{
    if components.len() > 1 {
        let rest = components.skip(1);
        lemma_sum_of_static(rest);
        assert(rest.drop_last() =~= components.drop_last().skip(1));
        assert(components.drop_last()[0] == components[0]);
    } else if components.len() == 1 {
        assert(components.skip(1) =~= Seq::empty());
        assert(components.drop_last() =~= Seq::empty());
    }
}

proof fn lemma_static_cells(components: Seq<ComponentInfo>)
    ensures
        static_cells(components) == as_far_as_it_goes(sum_of_static(components)),
    decreases components.len(),
{
    lemma_sum_of_static(components);
    if components.len() > 0 {
        lemma_static_cells(components.drop_last());
    }
}

proof fn lemma_static_cells_of_children(tree: EntityTree, children: Seq<EntityTree>)
    requires
        forall|i: int| 0 <= i < children.len() ==> decreases_to!(tree => #[trigger] children[i]),
    ensures
        static_cells_of_children(children) == as_far_as_it_goes(sum_of_all(children)),
    decreases tree, children.len(),
{
    if children.len() > 0 {
        let rest = children.drop_last();
        assert forall|i: int| 0 <= i < rest.len() implies decreases_to!(tree => #[trigger] rest[i]) by {
            assert(rest[i] == children[i]);
        }
        lemma_static_cells_of_children(tree, rest);
        law_all_static_cells_are_counted(children[children.len() - 1]);
    }
}

/// Law: the number of static cells of a tree is that of all components of all its entities, as far
/// as it can be counted.
pub proof fn law_all_static_cells_are_counted(tree: EntityTree)
    ensures
        static_cells_below(tree) == as_far_as_it_goes(sum_below(tree)),
    decreases tree, tree.children@.len() + 1,
{
    lemma_static_cells(tree.components@);
    lemma_static_cells_of_children(tree, tree.children@);
}

} // verus!

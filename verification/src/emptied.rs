//! What clears empty: everything that is known of an entity, or of all entities below it.
use crate::bucket::cell_of;
use crate::clear::{
    clear_flag, clearable, cleared_by, cleared_entities, entities_in_order, is_clear_component,
    lemma_cleared_in_order, ClearedEntityView, ClearedRowView,
};
use crate::entity_db::DbView;
use crate::entries::{entries_in, latest_until, Entry};
use crate::ingest::{
    cascade_entities, cascade_entity, cascade_rows, cleared_cells, row_step_with, Cascade,
};
use crate::names::{ComponentName, RowId, TimeInt, Timeline};
use crate::path::{
    entity_path_hash, entity_path_parts, lemma_comes_before, lies_under, path_before,
};
use crate::readback::{
    law_clears_empty_components, law_queries_find_what_was_written, time_on,
};
use crate::retry::{
    inserted, law_retries_change_only_the_counter, DEFAULT_INSERT_ROW_STEP_SIZE,
    MAX_INSERT_ROW_ATTEMPTS,
};
use crate::row::{
    components_distinct, timelines_distinct, times_temporal, CellValue, DataCell, DataType,
    DiffView, RowView,
};
use crate::store::{
    addition_of, in_use, latest_entry, lemma_tables_with, slot_index, static_entry, store_with,
    tables_valid, type_of, DataStoreConfig, LatestAtQuery, StoreView,
};
use crate::tree::{
    child_index, component_index, components_changed, info_names, lemma_listed_in_order,
    lemma_paths_lead, lemma_tree_view, listed, listed_children, node_at, paths_lead, subtree_at,
    tree_after, tree_changed, ComponentInfo, EntityTree, TreeView, VisitedView,
};
use re_log_types::EntityPath;
use vstd::prelude::*;

verus! {

// --- What is known of entities.

/// Whether a component is among some.
pub open spec fn has_name(components: Seq<ComponentInfo>, component: Seq<char>) -> bool {
    exists|k: int| 0 <= k < components.len() && (#[trigger] components[k]).name@ == component
}

/// Whether a tree knows a component of the entity that some parts lead to.
pub open spec fn knows(tree: TreeView, parts: Seq<Seq<char>>, component: Seq<char>) -> bool {
    subtree_at(tree, parts, 0) matches Some(node) && has_name(node.components, component)
}

/// Whether a row has a cell of a component.
pub open spec fn logs(diff: DiffView, component: Seq<char>) -> bool {
    exists|k: int|
        0 <= k < diff.cells.len() && (#[trigger] diff.cells[k]).component_name@ == component
}

pub proof fn lemma_component_index(components: Seq<ComponentInfo>, name: Seq<char>)
    ensures
        match component_index(components, name) {
            Some(i) => 0 <= i < components.len() && components[i].name@ == name,
            None => !has_name(components, name),
        },
    decreases components.len(),
{
    if components.len() > 0 {
        let init = components.drop_last();
        lemma_component_index(init, name);
        if component_index(components, name) is None && has_name(components, name) {
            let k = choose|k: int|
                0 <= k < components.len() && (#[trigger] components[k]).name@ == name;
            assert(init[k].name@ == name);
        }
    }
}

proof fn lemma_components_changed(
    components: Seq<ComponentInfo>,
    cells: Seq<DataCell>,
    add: bool,
    is_static: bool,
    component: Seq<char>,
)
    ensures
        has_name(components_changed(components, cells, add, is_static), component) <==> has_name(
            components,
            component,
        ) || add && exists|k: int|
            0 <= k < cells.len() && (#[trigger] cells[k]).component_name@ == component,
    decreases cells.len(),
{
    if cells.len() > 0 {
        let init = cells.drop_last();
        let n = init.len() as int;
        let rest = components_changed(components, init, add, is_static);
        let all = components_changed(components, cells, add, is_static);
        let name = cells.last().component_name;
        lemma_components_changed(components, init, add, is_static, component);
        lemma_component_index(rest, name@);
        if exists|k: int| 0 <= k < n && (#[trigger] init[k]).component_name@ == component {
            let k = choose|k: int| 0 <= k < n && (#[trigger] init[k]).component_name@ == component;
            assert(cells[k].component_name@ == component);
        }
        if exists|k: int|
            0 <= k < cells.len() && (#[trigger] cells[k]).component_name@ == component {
            let k = choose|k: int|
                0 <= k < cells.len() && (#[trigger] cells[k]).component_name@ == component;
            if k < n {
                assert(init[k].component_name@ == component);
            }
        }
        assert(cells[n].component_name == name);
        if has_name(rest, component) {
            let k = choose|k: int| 0 <= k < rest.len() && (#[trigger] rest[k]).name@ == component;
            assert(all[k].name@ == component);
        }
        if has_name(all, component) {
            let k = choose|k: int| 0 <= k < all.len() && (#[trigger] all[k]).name@ == component;
            if k < rest.len() {
                assert(rest[k].name@ == component);
            }
        }
        if add && name@ == component && !has_name(rest, component) {
            assert(all[all.len() - 1].name@ == component);
        }
    }
}

pub proof fn lemma_child_index(children: Seq<TreeView>, name: Seq<char>)
    ensures
        match child_index(children, name) {
            Some(i) => {
                &&& 0 <= i < children.len()
                &&& children[i].name == name
                &&& forall|j: int| 0 <= j < i ==> (#[trigger] children[j]).name != name
            },
            None => forall|j: int| 0 <= j < children.len() ==> (#[trigger] children[j]).name != name,
        },
    decreases children.len(),
{
    if children.len() > 0 {
        let init = children.drop_last();
        lemma_child_index(init, name);
        match child_index(init, name) {
            Some(i) => {
                assert forall|j: int| 0 <= j < i implies (#[trigger] children[j]).name != name by {
                    assert(init[j].name != name);
                }
            },
            None => {
                assert forall|j: int| 0 <= j < init.len() implies (#[trigger] children[j]).name
                    != name by {
                    assert(init[j].name != name);
                }
            },
        }
    }
}

/// Where a child is found is settled by what names come before it.
pub proof fn lemma_child_index_is(children: Seq<TreeView>, name: Seq<char>, i: int)
    requires
        0 <= i < children.len(),
        children[i].name == name,
        forall|j: int| 0 <= j < i ==> (#[trigger] children[j]).name != name,
    ensures
        child_index(children, name) == Some(i),
{
    lemma_child_index(children, name);
    let k = child_index(children, name)->0;
    if child_index(children, name) is None {
        assert(children[i].name != name);
    } else if i < k {
        assert(children[i].name != name);
    } else if k < i {
        assert(children[k].name != name);
    }
}

pub proof fn lemma_child_position(children: Seq<TreeView>, name: Seq<char>)
    ensures
        0 <= crate::tree::child_position(children, name) <= children.len(),
    decreases children.len(),
{
    if children.len() > 0 {
        lemma_child_position(children.drop_last(), name);
    }
}

spec fn knows_from(tree: TreeView, parts: Seq<Seq<char>>, depth: int, component: Seq<char>) -> bool {
    subtree_at(tree, parts, depth) matches Some(node) && has_name(node.components, component)
}

/// Children of other names are found where they were, or one further.
pub proof fn lemma_other_child(
    before: Seq<TreeView>,
    after: Seq<TreeView>,
    at: int,
    new: TreeView,
    name: Seq<char>,
)
    requires
        0 <= at <= before.len(),
        after == before.insert(at, new),
        new.name != name,
    ensures
        match (child_index(before, name), child_index(after, name)) {
            (Some(i), Some(j)) => before[i] == after[j],
            (None, None) => true,
            _ => false,
        },
{
    lemma_child_index(before, name);
    lemma_child_index(after, name);
    match child_index(before, name) {
        Some(i) => {
            let j = if i < at {
                i
            } else {
                i + 1
            };
            assert(after[j] == before[i]);
            assert forall|k: int| 0 <= k < j implies (#[trigger] after[k]).name != name by {
                if k < at {
                    assert(after[k] == before[k]);
                } else if k > at {
                    assert(after[k] == before[k - 1]);
                }
            }
            lemma_child_index_is(after, name, j);
        },
        None => {
            assert forall|k: int| 0 <= k < after.len() implies (#[trigger] after[k]).name
                != name by {
                if k < at {
                    assert(after[k] == before[k]);
                } else if k > at {
                    assert(after[k] == before[k - 1]);
                }
            }
            if child_index(after, name) is Some {
                assert(after[child_index(after, name)->0].name != name);
            }
        },
    }
}

proof fn lemma_tree_changed(
    tree: TreeView,
    path: Seq<Seq<char>>,
    depth: int,
    diff: DiffView,
    parts: Seq<Seq<char>>,
    component: Seq<char>,
)
    requires
        0 <= depth <= path.len(),
        depth <= parts.len(),
        forall|d: int| 0 <= d < depth ==> path[d] == parts[d],
    ensures
        knows_from(tree_changed(tree, path, depth, diff), parts, depth, component) <==> knows_from(
            tree,
            parts,
            depth,
            component,
        ) || (diff.kind is Addition && path == parts && logs(diff, component)),
        tree_changed(tree, path, depth, diff).name == tree.name,
    decreases path.len() - depth,
{
    let add = diff.kind is Addition;
    let after = tree_changed(tree, path, depth, diff);
    if depth == path.len() {
        lemma_components_changed(
            tree.components,
            diff.cells,
            add,
            diff.times.len() == 0,
            component,
        );
        if depth == parts.len() {
            assert(path =~= parts);
        } else {
            assert(path.len() != parts.len());
        }
    } else {
        let name = path[depth];
        lemma_child_index(tree.children, name);
        match child_index(tree.children, name) {
            Some(i) => {
                let child = tree_changed(tree.children[i], path, depth + 1, diff);
                if depth < parts.len() && parts[depth] == name {
                    lemma_tree_changed(tree.children[i], path, depth + 1, diff, parts, component);
                    assert forall|j: int| 0 <= j < i implies (#[trigger] after.children[j]).name
                        != name by {
                        assert(tree.children[j].name != name);
                    }
                    lemma_child_index_is(after.children, name, i);
                } else {
                    assert(child.name == tree.children[i].name) by {
                        lemma_tree_changed(
                            tree.children[i],
                            path,
                            depth + 1,
                            diff,
                            path,
                            component,
                        );
                    }
                    if depth < parts.len() {
                        lemma_child_index(tree.children, parts[depth]);
                        lemma_child_index(after.children, parts[depth]);
                        match child_index(tree.children, parts[depth]) {
                            Some(j) => {
                                assert forall|k: int| 0 <= k < j implies (
                                #[trigger] after.children[k]).name != parts[depth] by {
                                    assert(tree.children[k].name != parts[depth]);
                                }
                                assert(after.children[j] == tree.children[j]);
                                lemma_child_index_is(after.children, parts[depth], j);
                            },
                            None => {
                                assert forall|k: int| 0 <= k < after.children.len() implies (
                                #[trigger] after.children[k]).name != parts[depth] by {
                                    assert(tree.children[k].name != parts[depth]);
                                }
                                if let Some(j) = child_index(after.children, parts[depth]) {
                                    assert(after.children[j].name != parts[depth]);
                                }
                            },
                        }
                    }
                }
            },
            None => {
                if add {
                    let leaf = crate::tree::leaf(name);
                    let child = tree_changed(leaf, path, depth + 1, diff);
                    let at = crate::tree::child_position(tree.children, name);
                    lemma_child_position(tree.children, name);
                    lemma_tree_changed(leaf, path, depth + 1, diff, path, component);
                    if depth < parts.len() && parts[depth] == name {
                        lemma_tree_changed(leaf, path, depth + 1, diff, parts, component);
                        lemma_leaf_knows_nothing(name, parts, depth + 1, component);
                        assert forall|j: int| 0 <= j < at implies (
                        #[trigger] after.children[j]).name != name by {
                            assert(tree.children[j].name != name);
                        }
                        assert(after.children[at] == child);
                        lemma_child_index_is(after.children, name, at);
                    } else if depth < parts.len() {
                        lemma_other_child(tree.children, after.children, at, child, parts[depth]);
                    }
                }
            },
        }
        if depth < parts.len() && parts[depth] != name || depth == parts.len() {
            assert(path != parts);
        }
    }
}

proof fn lemma_leaf_knows_nothing(
    name: Seq<char>,
    parts: Seq<Seq<char>>,
    depth: int,
    component: Seq<char>,
)
    ensures
        !knows_from(crate::tree::leaf(name), parts, depth, component),
{
}

/// Law: a tree knows exactly the components that were ever logged to an entity, whichever of the
/// cells of a row they came with. What is removed stays known.
pub proof fn law_trees_know_what_was_logged(
    tree: TreeView,
    diffs: Seq<DiffView>,
    parts: Seq<Seq<char>>,
    component: Seq<char>,
)
    ensures
        knows(tree_after(tree, diffs), parts, component) <==> knows(tree, parts, component)
            || exists|d: int|
            {
                &&& 0 <= d < diffs.len()
                &&& (#[trigger] diffs[d]).kind is Addition
                &&& entity_path_parts(diffs[d].entity_path) == parts
                &&& logs(diffs[d], component)
            },
    decreases diffs.len(),
{
    if diffs.len() > 0 {
        let init = diffs.drop_last();
        let n = init.len() as int;
        law_trees_know_what_was_logged(tree, init, parts, component);
        lemma_tree_changed(
            tree_after(tree, init),
            entity_path_parts(diffs.last().entity_path),
            0,
            diffs.last(),
            parts,
            component,
        );
        if exists|d: int|
            {
                &&& 0 <= d < init.len()
                &&& (#[trigger] init[d]).kind is Addition
                &&& entity_path_parts(init[d].entity_path) == parts
                &&& logs(init[d], component)
            } {
            let d = choose|d: int|
                {
                    &&& 0 <= d < init.len()
                    &&& (#[trigger] init[d]).kind is Addition
                    &&& entity_path_parts(init[d].entity_path) == parts
                    &&& logs(init[d], component)
                };
            assert(diffs[d] == init[d]);
        }
        if exists|d: int|
            {
                &&& 0 <= d < diffs.len()
                &&& (#[trigger] diffs[d]).kind is Addition
                &&& entity_path_parts(diffs[d].entity_path) == parts
                &&& logs(diffs[d], component)
            } {
            let d = choose|d: int|
                {
                    &&& 0 <= d < diffs.len()
                    &&& (#[trigger] diffs[d]).kind is Addition
                    &&& entity_path_parts(diffs[d].entity_path) == parts
                    &&& logs(diffs[d], component)
                };
            if d < n {
                assert(init[d] == diffs[d]);
            }
        }
        assert(diffs[n] == diffs.last());
    }
}

// --- What there is below an entity.

proof fn lemma_child_of_name(tree: EntityTree, i: int)
    requires
        crate::tree::names_ordered(tree.children@),
        0 <= i < tree.children@.len(),
    ensures
        child_index(tree@.children, tree.children@[i].name@) == Some(i),
        tree@.children[i] == tree.children@[i]@,
{
    lemma_tree_view(tree);
    let children = tree@.children;
    let name = tree.children@[i].name@;
    lemma_tree_view(tree.children@[i]);
    assert forall|j: int| 0 <= j < i implies (#[trigger] children[j]).name != name by {
        lemma_tree_view(tree.children@[j]);
        assert(crate::path::comes_before(tree.children@[j].name@, tree.children@[i].name@));
        crate::path::lemma_comes_before(name, name);
    }
    lemma_child_index_is(children, name, i);
}

pub proof fn lemma_child_is_listed(children: Seq<EntityTree>, i: int, k: int) -> (n: int)
    requires
        0 <= i < children.len(),
        0 <= k < listed(children[i]).len(),
    ensures
        0 <= n < listed_children(children).len(),
        listed_children(children)[n] == listed(children[i])[k],
    decreases children.len(),
{
    let init = children.drop_last();
    if i < init.len() {
        lemma_child_is_listed(init, i, k)
    } else {
        listed_children(init).len() + k
    }
}

pub proof fn lemma_listed_is_of_child(children: Seq<EntityTree>, n: int) -> (at: (int, int))
    requires
        0 <= n < listed_children(children).len(),
    ensures
        0 <= at.0 < children.len(),
        0 <= at.1 < listed(children[at.0]).len(),
        listed_children(children)[n] == listed(children[at.0])[at.1],
    decreases children.len(),
{
    let init = children.drop_last();
    if n < listed_children(init).len() {
        lemma_listed_is_of_child(init, n)
    } else {
        (init.len() as int, n - listed_children(init).len())
    }
}

/// Everything in a tree is listed.
pub proof fn lemma_all_is_listed(tree: EntityTree, base: Seq<Seq<char>>, parts: Seq<Seq<char>>)
    -> (n: int)
    requires
        paths_lead(tree, base),
        lies_under(parts, base),
        subtree_at(tree@, parts, base.len() as int) is Some,
    ensures
        0 <= n < listed(tree).len(),
        entity_path_parts(listed(tree)[n].path) == parts,
        listed(tree)[n].components == info_names(
            subtree_at(tree@, parts, base.len() as int)->0.components,
        ),
        parts == base ==> n == 0,
    decreases parts.len() - base.len(),
{
    let depth = base.len() as int;
    lemma_paths_lead(tree, base);
    lemma_tree_view(tree);
    if depth == parts.len() {
        assert(parts.take(depth) =~= parts);
        0
    } else {
        lemma_child_index(tree@.children, parts[depth]);
        let i = child_index(tree@.children, parts[depth])->0;
        let child = tree.children@[i];
        lemma_tree_view(child);
        let below = base.push(child.name@);
        assert(tree@.children[i] == child@);
        assert(parts.take(depth + 1) =~= below);
        let k = lemma_all_is_listed(child, below, parts);
        let n = lemma_child_is_listed(tree.children@, i, k);
        n + 1
    }
}

/// Nothing is listed but what is in a tree.
pub proof fn lemma_listed_is_there(tree: EntityTree, base: Seq<Seq<char>>, n: int)
    requires
        paths_lead(tree, base),
        0 <= n < listed(tree).len(),
    ensures
        ({
            let parts = entity_path_parts(listed(tree)[n].path);
            &&& lies_under(parts, base)
            &&& n == 0 ==> parts == base
            &&& subtree_at(tree@, parts, base.len() as int) matches Some(node)
            &&& listed(tree)[n].components == info_names(node.components)
        }),
    decreases tree,
{
    lemma_paths_lead(tree, base);
    lemma_tree_view(tree);
    if n == 0 {
        assert(base.take(base.len() as int) =~= base);
    } else {
        let (i, k) = lemma_listed_is_of_child(tree.children@, n - 1);
        let child = tree.children@[i];
        let below = base.push(child.name@);
        lemma_child_of_name(tree, i);
        lemma_listed_is_there(child, below, k);
        let parts = entity_path_parts(listed(child)[k].path);
        assert(parts.take(base.len() as int) =~= below.take(base.len() as int));
        assert(below.take(base.len() as int) =~= base);
        assert(parts[base.len() as int] == parts.take(below.len() as int)[base.len() as int]);
    }
}

/// The node that a path leads to, and what is below it.
pub proof fn lemma_node_at(
    tree: EntityTree,
    path: Seq<Seq<char>>,
    depth: int,
    parts: Seq<Seq<char>>,
)
    requires
        0 <= depth <= path.len(),
        paths_lead(tree, path.take(depth)),
        lies_under(parts, path),
    ensures
        match node_at(tree, path, depth) {
            Some(node) => {
                &&& paths_lead(node, path)
                &&& subtree_at(tree@, parts, depth) == subtree_at(
                    node@,
                    parts,
                    path.len() as int,
                )
            },
            None => subtree_at(tree@, parts, depth) is None,
        },
    decreases path.len() - depth,
{
    if depth == path.len() {
        assert(path.take(depth) =~= path);
    } else {
        assert(parts[depth] == parts.take(path.len() as int)[depth]);
        lemma_paths_lead(tree, path.take(depth));
        lemma_tree_view(tree);
        lemma_child_index(tree@.children, path[depth]);
        if let Some(i) = child_index(tree@.children, path[depth]) {
            lemma_tree_view(tree.children@[i]);
            assert(path.take(depth).push(tree.children@[i].name@) =~= path.take(depth + 1));
            lemma_node_at(tree.children@[i], path, depth + 1, parts);
        }
    }
}

// --- What is emptied.

/// Whether a row is a clear, and whether it is for everything below its entity as well.
pub open spec fn is_clear(diff: DiffView, recursive: bool) -> bool {
    exists|k: int|
        {
            &&& 0 <= k < diff.cells.len()
            &&& (#[trigger] diff.cells[k]).component_name@ == "rerun.components.ClearIsRecursive"@
            &&& diff.cells[k].num_instances > 0
            &&& *diff.cells[k].value == CellValue::ClearIsRecursive(recursive)
        }
}

/// Whether something is to be emptied: a component of the entity that some parts lead to.
pub open spec fn empties(
    rows: Seq<ClearedRowView>,
    parts: Seq<Seq<char>>,
    component: Seq<char>,
) -> bool {
    exists|r: int, e: int, k: int|
        {
            &&& 0 <= r < rows.len()
            &&& 0 <= e < rows[r].entities.len()
            &&& 0 <= k < rows[r].entities[e].components.len()
            &&& entity_path_parts(rows[r].entities[e].entity_path) == parts
            &&& (#[trigger] rows[r].entities[e].components[k])@ == component
        }
}

proof fn lemma_clearable(components: Seq<ComponentName>, component: Seq<char>)
    ensures
        (exists|k: int|
            0 <= k < clearable(components).len() && (#[trigger] clearable(components)[k])@
                == component) <==> !is_clear_component(component) && exists|k: int|
            0 <= k < components.len() && (#[trigger] components[k])@ == component,
    decreases components.len(),
{
    if components.len() > 0 {
        let init = components.drop_last();
        let n = init.len() as int;
        lemma_clearable(init, component);
        let rest = clearable(init);
        let all = clearable(components);
        if exists|k: int| 0 <= k < rest.len() && (#[trigger] rest[k])@ == component {
            let k = choose|k: int| 0 <= k < rest.len() && (#[trigger] rest[k])@ == component;
            assert(all[k]@ == component);
        }
        if exists|k: int| 0 <= k < all.len() && (#[trigger] all[k])@ == component {
            let k = choose|k: int| 0 <= k < all.len() && (#[trigger] all[k])@ == component;
            if k < rest.len() {
                assert(rest[k]@ == component);
            } else {
                assert(components[n]@ == component);
            }
        }
        if exists|k: int| 0 <= k < init.len() && (#[trigger] init[k])@ == component {
            let k = choose|k: int| 0 <= k < init.len() && (#[trigger] init[k])@ == component;
            assert(components[k]@ == component);
        }
        if exists|k: int| 0 <= k < components.len() && (#[trigger] components[k])@ == component {
            let k = choose|k: int|
                0 <= k < components.len() && (#[trigger] components[k])@ == component;
            if k < n {
                assert(init[k]@ == component);
            } else if !is_clear_component(component) {
                assert(all[all.len() - 1]@ == component);
            }
        }
    }
}

/// Of each entity, everything that can be is emptied.
proof fn lemma_cleared_entities(
    entities: Seq<VisitedView>,
    times: Seq<(Timeline, TimeInt)>,
    i: int,
    component: Seq<char>,
) -> (at: (int, int))
    requires
        0 <= i < entities.len(),
        !is_clear_component(component),
        exists|k: int|
            0 <= k < entities[i].components.len() && (#[trigger] entities[i].components[k])@
                == component,
    ensures
        ({
            let all = cleared_entities(entities, times);
            &&& 0 <= at.0 < all.len()
            &&& all[at.0].entity_path == entities[i].path
            &&& all[at.0].times == times
            &&& 0 <= at.1 < all[at.0].components.len()
            &&& all[at.0].components[at.1]@ == component
        }),
    decreases entities.len(),
{
    let init = entities.drop_last();
    if i < init.len() {
        let k = choose|k: int|
            0 <= k < entities[i].components.len() && (#[trigger] entities[i].components[k])@
                == component;
        assert(init[i].components[k]@ == component);
        lemma_cleared_entities(init, times, i, component)
    } else {
        lemma_clearable(entities.last().components, component);
        let components = clearable(entities.last().components);
        let k = choose|k: int| 0 <= k < components.len() && (#[trigger] components[k])@ == component;
        (cleared_entities(init, times).len() as int, k)
    }
}

/// Nothing is emptied but what is there.
proof fn lemma_cleared_is_there(
    entities: Seq<VisitedView>,
    times: Seq<(Timeline, TimeInt)>,
    e: int,
    k: int,
) -> (i: int)
    requires
        0 <= e < cleared_entities(entities, times).len(),
        0 <= k < cleared_entities(entities, times)[e].components.len(),
    ensures
        ({
            let entity = cleared_entities(entities, times)[e];
            &&& 0 <= i < entities.len()
            &&& entities[i].path == entity.entity_path
            &&& entity.times == times
            &&& !is_clear_component(entity.components[k]@)
            &&& exists|c: int|
                0 <= c < entities[i].components.len() && (#[trigger] entities[i].components[c])@
                    == entity.components[k]@
        }),
    decreases entities.len(),
{
    let init = entities.drop_last();
    if e < cleared_entities(init, times).len() {
        lemma_cleared_is_there(init, times, e, k)
    } else {
        let component = clearable(entities.last().components)[k]@;
        lemma_clearable(entities.last().components, component);
        init.len() as int
    }
}

/// A row has at most one cell of a component, so it is one kind of clear at most.
proof fn lemma_clear_flag(diff: DiffView, recursive: bool)
    requires
        components_distinct(diff.cells),
    ensures
        clear_flag(diff.cells) == Some(recursive) <==> is_clear(diff, recursive),
{
    let name = "rerun.components.ClearIsRecursive"@;
    if crate::row::has_component(diff.cells, name) {
        let k = choose|k: int|
            0 <= k < diff.cells.len() && (#[trigger] diff.cells[k]).component_name@ == name;
        assert forall|j: int| 0 <= j < k implies (#[trigger] diff.cells[j]).component_name@
            != name by {
            assert(diff.cells[j].component_name@ != diff.cells[k].component_name@);
        }
        crate::bucket::lemma_cell_of_found(diff.cells, name, k);
        assert(cell_of(diff.cells, name) == Some(diff.cells[k]));
        if is_clear(diff, recursive) {
            let m = choose|m: int|
                {
                    &&& 0 <= m < diff.cells.len()
                    &&& (#[trigger] diff.cells[m]).component_name@
                        == "rerun.components.ClearIsRecursive"@
                    &&& diff.cells[m].num_instances > 0
                    &&& *diff.cells[m].value == CellValue::ClearIsRecursive(recursive)
                };
            if k < m {
                assert(diff.cells[k].component_name@ != diff.cells[m].component_name@);
            } else if m < k {
                assert(diff.cells[m].component_name@ != diff.cells[k].component_name@);
            }
        }
    } else {
        crate::bucket::lemma_cell_of_missing(diff.cells, name);
    }
}

/// Law: a clear empties every component that is known of its entity, and if it is recursive, of
/// every entity below it. It leaves alone only the components that clears themselves are made of.
/// Everything is emptied at the times of the clear, and because of it.
pub proof fn law_clears_reach_every_component(
    tree: EntityTree,
    diff: DiffView,
    recursive: bool,
    parts: Seq<Seq<char>>,
    component: Seq<char>,
)
    requires
        tree.wf(),
        components_distinct(diff.cells),
        is_clear(diff, recursive),
    ensures
        ({
            let rows = cleared_by(tree, diff);
            &&& empties(rows, parts, component) <==> {
                &&& knows(tree@, parts, component)
                &&& parts == entity_path_parts(diff.entity_path) || recursive && lies_under(
                    parts,
                    entity_path_parts(diff.entity_path),
                )
                &&& component != "rerun.components.ClearIsRecursive"@
                &&& component != "rerun.components.ClearIndicator"@
            }
            &&& forall|r: int| 0 <= r < rows.len() ==> (#[trigger] rows[r]).row_id == diff.row_id
            &&& forall|r: int, e: int|
                0 <= r < rows.len() && 0 <= e < rows[r].entities.len() ==> (
                #[trigger] rows[r].entities[e]).times == diff.times
        }),
{
    let path = entity_path_parts(diff.entity_path);
    let rows = cleared_by(tree, diff);
    lemma_clear_flag(diff, recursive);
    assert(Seq::<Seq<char>>::empty() =~= path.take(0));
    assert(path.take(path.len() as int) =~= path);
    lemma_node_at(tree, path, 0, path);
    if let Some(node) = node_at(tree, path, 0) {
        let all = listed(node);
        let entities = if recursive {
            all
        } else {
            all.take(1)
        };
        assert(rows[0].entities == cleared_entities(entities, diff.times));
        assert forall|r: int, e: int|
            0 <= r < rows.len() && 0 <= e < rows[r].entities.len() implies (
        #[trigger] rows[r].entities[e]).times == diff.times by {
            lemma_cleared_nonempty(entities, diff.times, e);
            lemma_cleared_is_there(entities, diff.times, e, 0);
        }
        if knows(tree@, parts, component) && (parts == path || recursive && lies_under(parts, path))
            && !is_clear_component(component) {
            lemma_node_at(tree, path, 0, parts);
            let n = lemma_all_is_listed(node, path, parts);
            let found = subtree_at(tree@, parts, 0)->0;
            let k = choose|k: int|
                0 <= k < found.components.len() && (#[trigger] found.components[k]).name@
                    == component;
            assert(entities[n] == all[n]);
            assert(entities[n].components[k]@ == component);
            let (e, c) = lemma_cleared_entities(entities, diff.times, n, component);
            assert(rows[0].entities[e].components[c]@ == component);
        }
        if empties(rows, parts, component) {
            let (r, e, k) = choose|r: int, e: int, k: int|
                {
                    &&& 0 <= r < rows.len()
                    &&& 0 <= e < rows[r].entities.len()
                    &&& 0 <= k < rows[r].entities[e].components.len()
                    &&& entity_path_parts(rows[r].entities[e].entity_path) == parts
                    &&& (#[trigger] rows[r].entities[e].components[k])@ == component
                };
            let i = lemma_cleared_is_there(entities, diff.times, e, k);
            assert(entities[i] == all[i]);
            lemma_listed_is_there(node, path, i);
            lemma_node_at(tree, path, 0, parts);
            let c = choose|c: int|
                0 <= c < entities[i].components.len() && (#[trigger] entities[i].components[c])@
                    == component;
            let found = subtree_at(tree@, parts, 0)->0;
            assert(found.components[c].name@ == component);
        }
    } else if lies_under(parts, path) {
        lemma_node_at(tree, path, 0, parts);
    }
}

proof fn lemma_cleared_nonempty(
    entities: Seq<VisitedView>,
    times: Seq<(Timeline, TimeInt)>,
    e: int,
)
    requires
        0 <= e < cleared_entities(entities, times).len(),
    ensures
        cleared_entities(entities, times)[e].components.len() > 0,
    decreases entities.len(),
{
    if e < cleared_entities(entities.drop_last(), times).len() {
        lemma_cleared_nonempty(entities.drop_last(), times, e);
    }
}

// --- What queries find of that.

/// Adding a row leaves the tables in order, and for anything but its entity changes nothing that
/// queries find.
proof fn lemma_row_elsewhere(
    store: StoreView,
    config: DataStoreConfig,
    row: RowView,
    query: LatestAtQuery,
    hash: u64,
    component: Seq<char>,
)
    requires
        tables_valid(store.tables, config.store_insert_ids),
        timelines_distinct(row.times),
        times_temporal(row.times),
        row.times.len() > 0,
        !in_use(store, config, row),
    ensures
        tables_valid(store_with(store, config, row).tables, config.store_insert_ids),
        store_with(store, config, row).statics == store.statics,
        hash != entity_path_hash(row.entity_path) ==> latest_entry(
            store_with(store, config, row),
            query,
            hash,
            component,
        ) == latest_entry(store, query, hash, component),
{
    law_queries_find_what_was_written(store, config, row, query, hash, component);
    lemma_tables_with(store.tables, config, row.times, row, store.insert_id);
}

/// One step of a cascade: a row is added for the entity, or nothing changes.
proof fn lemma_cascade_step(
    at: Cascade,
    config: DataStoreConfig,
    types: Seq<(ComponentName, DataType)>,
    entity: ClearedEntityView,
    randoms: Seq<u64>,
    query: LatestAtQuery,
    hash: u64,
    component: Seq<char>,
)
    requires
        tables_valid(at.store.tables, config.store_insert_ids),
        timelines_distinct(entity.times),
        times_temporal(entity.times),
        entity.times.len() > 0,
    ensures
        ({
            let end = cascade_entity(at, config, types, entity, randoms);
            &&& tables_valid(end.store.tables, config.store_insert_ids)
            &&& end.store.statics == at.store.statics
            &&& at.diffs.len() <= end.diffs.len() <= at.diffs.len() + 1
            &&& forall|d: int| 0 <= d < at.diffs.len() ==> #[trigger] end.diffs[d] == at.diffs[d]
            &&& end.diffs.len() > at.diffs.len() ==> end.diffs.last().entity_path
                == entity.entity_path && components_distinct(
                cleared_cells(types, entity.components),
            )
            &&& hash != entity_path_hash(entity.entity_path) ==> latest_entry(
                end.store,
                query,
                hash,
                component,
            ) == latest_entry(at.store, query, hash, component)
        }),
{
    let row = RowView {
        row_id: at.row_id,
        times: entity.times,
        entity_path: entity.entity_path,
        cells: cleared_cells(types, entity.components),
    };
    law_retries_change_only_the_counter(
        at.store,
        config,
        row,
        MAX_INSERT_ROW_ATTEMPTS as nat,
        DEFAULT_INSERT_ROW_STEP_SIZE,
        randoms,
    );
    if components_distinct(row.cells) {
        if let Ok(added) = inserted(
            at.store,
            config,
            row,
            MAX_INSERT_ROW_ATTEMPTS as nat,
            DEFAULT_INSERT_ROW_STEP_SIZE,
            randoms,
        ).outcome {
            lemma_row_elsewhere(at.store, config, added, query, hash, component);
        }
    }
}

/// Whether what is found is an empty cell, or something that does not come before a time and row
/// id.
pub open spec fn is_empty_or_later(found: Option<Entry>, time: i64, row_id: RowId) -> bool {
    found matches Some(entry) && (entry.cell.num_instances == 0 || entry.time > time || (entry.time
        == time && entry.row_id.bits >= row_id.bits))
}

/// Whether one of the entities of a clear has a hash, and a component among those to be emptied.
spec fn is_listed(entities: Seq<ClearedEntityView>, hash: u64, component: Seq<char>) -> bool {
    exists|e: int, k: int|
        {
            &&& 0 <= e < entities.len()
            &&& entity_path_hash(entities[e].entity_path) == hash
            &&& 0 <= k < entities[e].components.len()
            &&& (#[trigger] entities[e].components[k])@ == component
        }
}

proof fn lemma_cascade_empties(
    at: Cascade,
    config: DataStoreConfig,
    types: Seq<(ComponentName, DataType)>,
    entities: Seq<ClearedEntityView>,
    randoms: Seq<Seq<u64>>,
    times: Seq<(Timeline, TimeInt)>,
    query: LatestAtQuery,
    hash: u64,
    component: Seq<char>,
) -> (d: int)
    requires
        tables_valid(at.store.tables, config.store_insert_ids),
        timelines_distinct(times),
        times_temporal(times),
        times.len() > 0,
        forall|e: int| 0 <= e < entities.len() ==> (#[trigger] entities[e]).times == times,
        forall|a: int, b: int|
            #![trigger entities[a], entities[b]]
            0 <= a < b < entities.len() ==> entity_path_hash(entities[a].entity_path) != hash
                || entity_path_hash(entities[b].entity_path) != hash,
        time_on(times, query.timeline) matches Some(time) && time.value <= query.at.value,
        type_of(types, component) is Some,
        static_entry(at.store.statics, hash, component) is None,
    ensures
        ({
            let end = cascade_entities(at, config, types, entities, randoms);
            &&& tables_valid(end.store.tables, config.store_insert_ids)
            &&& end.store.statics == at.store.statics
            &&& at.diffs.len() <= end.diffs.len()
            &&& forall|i: int| 0 <= i < at.diffs.len() ==> #[trigger] end.diffs[i] == at.diffs[i]
            &&& forall|i: int|
                at.diffs.len() <= i < end.diffs.len() ==> exists|e: int|
                    0 <= e < entities.len() && (#[trigger] entities[e]).entity_path == (
                    #[trigger] end.diffs[i]).entity_path
            &&& is_listed(entities, hash, component) && (exists|i: int|
                at.diffs.len() <= i < end.diffs.len() && entity_path_hash(
                    (#[trigger] end.diffs[i]).entity_path,
                ) == hash) ==> {
                &&& at.diffs.len() <= d < end.diffs.len()
                &&& entity_path_hash(end.diffs[d].entity_path) == hash
                &&& is_empty_or_later(
                    latest_entry(end.store, query, hash, component),
                    time_on(times, query.timeline)->0.value,
                    end.diffs[d].row_id,
                )
            }
        }),
    decreases entities.len(),
{
    if entities.len() == 0 {
        0
    } else {
        let init = entities.drop_last();
        let n = init.len() as int;
        let last = entities[n];
        assert forall|e: int| 0 <= e < init.len() implies (#[trigger] init[e]).times == times by {
            assert(entities[e].times == times);
        }
        assert forall|a: int, b: int|
            #![trigger init[a], init[b]]
            0 <= a < b < init.len() implies entity_path_hash(init[a].entity_path) != hash
            || entity_path_hash(init[b].entity_path) != hash by {
            assert(entities[a] == init[a] && entities[b] == init[b]);
        }
        let d0 = lemma_cascade_empties(
            at,
            config,
            types,
            init,
            randoms,
            times,
            query,
            hash,
            component,
        );
        let st = cascade_entities(at, config, types, init, randoms);
        let end = cascade_entities(at, config, types, entities, randoms);
        assert(end == cascade_entity(st, config, types, last, randoms[n]));
        assert(last.times == times);
        lemma_cascade_step(st, config, types, last, randoms[n], query, hash, component);
        assert forall|i: int| at.diffs.len() <= i < end.diffs.len() implies exists|e: int|
            0 <= e < entities.len() && (#[trigger] entities[e]).entity_path == (
            #[trigger] end.diffs[i]).entity_path by {
            if i < st.diffs.len() {
                assert(end.diffs[i] == st.diffs[i]);
                let e = choose|e: int|
                    0 <= e < init.len() && (#[trigger] init[e]).entity_path
                        == st.diffs[i].entity_path;
                assert(entities[e] == init[e]);
            } else {
                assert(entities[n].entity_path == end.diffs[i].entity_path);
            }
        }
        if is_listed(entities, hash, component) && (exists|i: int|
            at.diffs.len() <= i < end.diffs.len() && entity_path_hash(
                (#[trigger] end.diffs[i]).entity_path,
            ) == hash) {
            let i = choose|i: int|
                at.diffs.len() <= i < end.diffs.len() && entity_path_hash(
                    (#[trigger] end.diffs[i]).entity_path,
                ) == hash;
            let (e, k) = choose|e: int, k: int|
                {
                    &&& 0 <= e < entities.len()
                    &&& entity_path_hash(entities[e].entity_path) == hash
                    &&& 0 <= k < entities[e].components.len()
                    &&& (#[trigger] entities[e].components[k])@ == component
                };
            if e == n {
                if i < st.diffs.len() {
                    assert(end.diffs[i] == st.diffs[i]);
                    let a = choose|a: int|
                        0 <= a < init.len() && (#[trigger] init[a]).entity_path
                            == st.diffs[i].entity_path;
                    assert(entities[a] == init[a]);
                    assert(entity_path_hash(entities[a].entity_path) != hash
                        || entity_path_hash(entities[n].entity_path) != hash);
                }
                law_clears_empty_components(st, config, types, last, randoms[n], query, k);
                assert(last.components[k]@ == component);
                end.diffs.len() - 1
            } else {
                assert(entity_path_hash(entities[e].entity_path) != hash || entity_path_hash(
                    entities[n].entity_path,
                ) != hash);
                if i >= st.diffs.len() {
                    assert(end.diffs[i].entity_path == last.entity_path);
                } else {
                    assert(end.diffs[i] == st.diffs[i]);
                }
                assert(init[e].components[k]@ == component);
                assert(entity_path_hash(st.diffs[i].entity_path) == hash);
                assert(end.diffs[d0] == st.diffs[d0]);
                d0
            }
        } else {
            0
        }
    }
}

/// Law: once a clear was added to a database, a query at its time finds an empty cell for every
/// component that was logged before to its entity, or if the clear is recursive, to any entity
/// below it. This is so wherever the row with the empty cells could be added, unless there is
/// static data, or something of the same time from a row with a higher id than that row.
pub proof fn law_what_was_cleared_is_found_empty(
    before: DbView,
    config: DataStoreConfig,
    row: RowView,
    after: DbView,
    randoms: Seq<u64>,
    tree: EntityTree,
    more: Seq<Seq<Seq<u64>>>,
    now: Option<u64>,
    recursive: bool,
    parts: Seq<Seq<char>>,
    hash: u64,
    component: Seq<char>,
    query: LatestAtQuery,
) -> (written: DiffView)
    requires
        tables_valid(before.store.tables, config.store_insert_ids),
        row_step_with(before, config, row, after, None, randoms, tree, more, now),
        timelines_distinct(row.times),
        times_temporal(row.times),
        components_distinct(row.cells),
        is_clear(addition_of(row), recursive),
        time_on(row.times, query.timeline) matches Some(time) && time.value == query.at.value,
        knows(before.tree, parts, component),
        parts == entity_path_parts(row.entity_path) || recursive && lies_under(
            parts,
            entity_path_parts(row.entity_path),
        ),
        component != "rerun.components.ClearIsRecursive"@,
        component != "rerun.components.ClearIndicator"@,
        forall|path: EntityPath| #[trigger]
            entity_path_hash(path) == hash <==> entity_path_parts(path) == parts,
        static_entry(before.store.statics, hash, component) is None,
        ({
            let first = inserted(
                before.store,
                config,
                row,
                MAX_INSERT_ROW_ATTEMPTS as nat,
                DEFAULT_INSERT_ROW_STEP_SIZE,
                randoms,
            );
            let end = cascade_rows(
                Cascade { store: first.store, row_id: RowId { bits: 0 }, diffs: Seq::empty() },
                config,
                first.store.types,
                cleared_by(tree, addition_of(first.outcome->Ok_0)),
                more,
            );
            &&& type_of(first.store.types, component) is Some
            &&& exists|i: int|
                0 <= i < end.diffs.len() && entity_path_hash((#[trigger] end.diffs[i]).entity_path)
                    == hash
        }),
    ensures
        entity_path_parts(written.entity_path) == parts,
        latest_entry(after.store, query, hash, component) matches Some(entry) && (
        entry.cell.num_instances == 0 || (entry.time == query.at.value && entry.row_id.bits
            >= written.row_id.bits)),
{
    let first = inserted(
        before.store,
        config,
        row,
        MAX_INSERT_ROW_ATTEMPTS as nat,
        DEFAULT_INSERT_ROW_STEP_SIZE,
        randoms,
    );
    law_retries_change_only_the_counter(
        before.store,
        config,
        row,
        MAX_INSERT_ROW_ATTEMPTS as nat,
        DEFAULT_INSERT_ROW_STEP_SIZE,
        randoms,
    );
    let added = first.outcome->Ok_0;
    let diff = addition_of(added);
    assert(added.cells == row.cells && added.times == row.times && added.entity_path
        == row.entity_path);
    assert(row.times.len() > 0);
    lemma_row_elsewhere(before.store, config, added, query, hash, component);
    assert(is_clear(diff, recursive)) by {
        let k = choose|k: int|
            {
                &&& 0 <= k < row.cells.len()
                &&& (#[trigger] addition_of(row).cells[k]).component_name@
                    == "rerun.components.ClearIsRecursive"@
                &&& addition_of(row).cells[k].num_instances > 0
                &&& *addition_of(row).cells[k].value == CellValue::ClearIsRecursive(recursive)
            };
        assert(diff.cells[k].num_instances > 0);
    }
    law_trees_know_what_was_logged(before.tree, seq![diff], parts, component);
    law_clears_reach_every_component(tree, diff, recursive, parts, component);
    let rows = cleared_by(tree, diff);
    assert(empties(rows, parts, component));
    let (r, e, k) = choose|r: int, e: int, k: int|
        {
            &&& 0 <= r < rows.len()
            &&& 0 <= e < rows[r].entities.len()
            &&& 0 <= k < rows[r].entities[e].components.len()
            &&& entity_path_parts(rows[r].entities[e].entity_path) == parts
            &&& (#[trigger] rows[r].entities[e].components[k])@ == component
        };
    assert(rows.len() == 1 && r == 0);
    let entities = rows[0].entities;
    let start = Cascade { store: first.store, row_id: RowId { bits: 0 }, diffs: Seq::empty() };
    let at = Cascade { row_id: rows[0].row_id, ..start };
    let end = cascade_rows(start, config, first.store.types, rows, more);
    assert(rows.drop_last() =~= Seq::empty());
    assert(cascade_rows(start, config, first.store.types, rows.drop_last(), more) == start);
    assert(end == cascade_entities(at, config, first.store.types, entities, more[0]));
    assert forall|i: int| 0 <= i < entities.len() implies (#[trigger] entities[i]).times
        == row.times by {
        assert(rows[0].entities[i].times == diff.times);
    }
    lemma_cleared_by_in_order(tree, diff);
    assert forall|a: int, b: int|
        #![trigger entities[a], entities[b]]
        0 <= a < b < entities.len() implies entity_path_hash(entities[a].entity_path) != hash
        || entity_path_hash(entities[b].entity_path) != hash by {
        if entity_path_hash(entities[a].entity_path) == hash && entity_path_hash(
            entities[b].entity_path,
        ) == hash {
            assert(path_before(
                entity_path_parts(entities[a].entity_path),
                entity_path_parts(entities[b].entity_path),
            ));
            lemma_not_before_itself(parts);
        }
    }
    assert(entity_path_hash(entities[e].entity_path) == hash);
    assert(entities[e].components[k]@ == component);
    let d = lemma_cascade_empties(
        at,
        config,
        first.store.types,
        entities,
        more[0],
        row.times,
        query,
        hash,
        component,
    );
    lemma_latest_not_too_late(after.store, query, hash, component);
    assert(entity_path_hash(end.diffs[d].entity_path) == hash);
    end.diffs[d]
}

proof fn lemma_not_before_itself(parts: Seq<Seq<char>>)
    ensures
        !path_before(parts, parts),
    decreases parts.len(),
{
    if parts.len() > 0 {
        lemma_comes_before(parts[0], parts[0]);
        lemma_not_before_itself(parts.skip(1));
    }
}

proof fn lemma_cleared_by_in_order(tree: EntityTree, diff: DiffView)
    requires
        tree.wf(),
    ensures
        forall|r: int|
            0 <= r < cleared_by(tree, diff).len() ==> entities_in_order(
                (#[trigger] cleared_by(tree, diff)[r]).entities,
            ),
{
    let path = entity_path_parts(diff.entity_path);
    assert(Seq::<Seq<char>>::empty() =~= path.take(0));
    assert(path.take(path.len() as int) =~= path);
    lemma_node_at(tree, path, 0, path);
    if let (Some(recursive), Some(node)) = (clear_flag(diff.cells), node_at(tree, path, 0)) {
        let all = listed(node);
        let some = if recursive {
            all
        } else {
            all.take(1)
        };
        lemma_listed_in_order(node, path);
        assert forall|a: int, b: int|
            #![trigger some[a], some[b]]
            0 <= a < b < some.len() implies path_before(
            entity_path_parts(some[a].path),
            entity_path_parts(some[b].path),
        ) by {
            assert(some[a] == all[a] && some[b] == all[b]);
        }
        lemma_cleared_in_order(some, diff.times);
    }
}

/// A query finds nothing later than what it asks for.
proof fn lemma_latest_not_too_late(
    store: StoreView,
    query: LatestAtQuery,
    hash: u64,
    component: Seq<char>,
)
    ensures
        static_entry(store.statics, hash, component) is None ==> (latest_entry(
            store,
            query,
            hash,
            component,
        ) matches Some(entry) ==> entry.time <= query.at.value),
{
    if let Some(i) = slot_index(store.tables, hash, query.timeline@) {
        lemma_latest_until(entries_in(store.tables[i].table.buckets, component), query.at.value);
    }
}

proof fn lemma_latest_until(entries: Seq<Entry>, at: i64)
    ensures
        latest_until(entries, at) matches Some(entry) ==> entry.time <= at,
    decreases entries.len(),
{
    if entries.len() > 0 {
        lemma_latest_until(entries.drop_last(), at);
    }
}

} // verus!

//! Which entities of a recording a filter lets through, and what can show them.
use crate::data_result::{
    handle_list, handles_of, insert_node, new_handle_list, new_node_map, new_system_list, node_map,
    node_at_handle, push_handle, push_system, system_list, systems_of, DataResult,
    DataResultHandle, DataResultNode, NodeMap, ResultView,
};
use crate::filter::{
    anything_included, exactly_included, included, PathFilter, RuleView,
};
use crate::names::ViewSystemIdentifier;
use crate::path::{
    clone_path, entity_path_hash, is_one_of_paths, path_view, paths_contain, same_path,
};
use crate::tree::EntityTree;
use re_log_types::EntityPath;
use vstd::prelude::*;

verus! {

// --- What is found.

/// A result and everything below it.
pub struct ResultTree {
    pub result: ResultView,
    pub children: Seq<ResultTree>,
}

/// Entities for each visualizer.
pub struct PerVisualizer {
    pub entries: Vec<(ViewSystemIdentifier, Vec<EntityPath>)>,
}

/// Whether no visualizer is listed twice, and no entity twice for the same one.
pub open spec fn without_repeats(entries: Seq<(ViewSystemIdentifier, Vec<EntityPath>)>) -> bool {
    &&& forall|i: int, j: int|
        #![trigger entries[i], entries[j]]
        0 <= i < j < entries.len() ==> entries[i].0@ != entries[j].0@
    &&& forall|i: int, a: int, b: int|
        #![trigger entries[i].1@[a], entries[i].1@[b]]
        0 <= i < entries.len() && 0 <= a < b < entries[i].1@.len() ==> entity_path_hash(
            entries[i].1@[a],
        ) != entity_path_hash(entries[i].1@[b])
}

/// The visualizers that an entity is listed for, in order.
pub open spec fn visualizers_for(
    entries: Seq<(ViewSystemIdentifier, Vec<EntityPath>)>,
    path: EntityPath,
) -> Seq<ViewSystemIdentifier>
    decreases entries.len(),
{
    if entries.len() == 0 {
        Seq::empty()
    } else {
        let rest = visualizers_for(entries.drop_last(), path);
        if paths_contain(entries.last().1@, path) {
            rest.push(entries.last().0)
        } else {
            rest
        }
    }
}

/// What can show an entity: nothing, unless the filter lets it through.
pub open spec fn shown_by(
    path: EntityPath,
    rules: Seq<RuleView>,
    visualizable: Seq<(ViewSystemIdentifier, Vec<EntityPath>)>,
) -> Seq<ViewSystemIdentifier> {
    if included(rules, path_view(path)) {
        visualizers_for(visualizable, path)
    } else {
        Seq::empty()
    }
}

/// What a query finds in a tree.
///
/// An entity is part of it if something can show it, if a rule is about this very entity, or if
/// anything below it is part of it.
pub open spec fn found_in(
    tree: EntityTree,
    rules: Seq<RuleView>,
    visualizable: Seq<(ViewSystemIdentifier, Vec<EntityPath>)>,
) -> Option<ResultTree>
    decreases tree,
{
    if !anything_included(rules, path_view(tree.path)) {
        None
    } else {
        let visualizers = shown_by(tree.path, rules, visualizable);
        let children = found_below(tree.children@, rules, visualizable);
        if exactly_included(rules, path_view(tree.path)) || children.len() > 0 || visualizers.len()
            > 0 {
            Some(
                ResultTree {
                    result: ResultView {
                        path: tree.path,
                        visualizers,
                        tree_prefix_only: !included(rules, path_view(tree.path)),
                        overrides: None,
                    },
                    children,
                },
            )
        } else {
            None
        }
    }
}

/// What a query finds in several trees, in order.
pub open spec fn found_below(
    trees: Seq<EntityTree>,
    rules: Seq<RuleView>,
    visualizable: Seq<(ViewSystemIdentifier, Vec<EntityPath>)>,
) -> Seq<ResultTree>
    decreases trees,
{
    if trees.len() == 0 {
        Seq::empty()
    } else {
        let rest = found_below(trees.drop_last(), rules, visualizable);
        match found_in(trees.last(), rules, visualizable) {
            Some(found) => rest.push(found),
            None => rest,
        }
    }
}

pub open spec fn one_if(condition: bool) -> nat {
    if condition {
        1
    } else {
        0
    }
}

/// How many entities of a tree the filter lets through, not counting those below an entity that the
/// rules rule out together with everything below it.
pub open spec fn num_matching(tree: EntityTree, rules: Seq<RuleView>) -> nat
    decreases tree,
{
    if !anything_included(rules, path_view(tree.path)) {
        0
    } else {
        one_if(included(rules, path_view(tree.path))) + num_matching_below(tree.children@, rules)
    }
}

pub open spec fn num_matching_below(trees: Seq<EntityTree>, rules: Seq<RuleView>) -> nat
    decreases trees,
{
    if trees.len() == 0 {
        0
    } else {
        num_matching_below(trees.drop_last(), rules) + num_matching(trees.last(), rules)
    }
}

/// How many of these something can show.
pub open spec fn num_visualized(
    tree: EntityTree,
    rules: Seq<RuleView>,
    visualizable: Seq<(ViewSystemIdentifier, Vec<EntityPath>)>,
) -> nat
    decreases tree,
{
    if !anything_included(rules, path_view(tree.path)) {
        0
    } else {
        one_if(shown_by(tree.path, rules, visualizable).len() > 0) + num_visualized_below(
            tree.children@,
            rules,
            visualizable,
        )
    }
}

pub open spec fn num_visualized_below(
    trees: Seq<EntityTree>,
    rules: Seq<RuleView>,
    visualizable: Seq<(ViewSystemIdentifier, Vec<EntityPath>)>,
) -> nat
    decreases trees,
{
    if trees.len() == 0 {
        0
    } else {
        num_visualized_below(trees.drop_last(), rules, visualizable) + num_visualized(
            trees.last(),
            rules,
            visualizable,
        )
    }
}

/// How many entities a tree has.
pub open spec fn num_entities(tree: EntityTree) -> nat
    decreases tree,
{
    1 + num_entities_below(tree.children@)
}

pub open spec fn num_entities_below(trees: Seq<EntityTree>) -> nat
    decreases trees,
{
    if trees.len() == 0 {
        0
    } else {
        num_entities_below(trees.drop_last()) + num_entities(trees.last())
    }
}

/// How many nodes a result can hold at most.
pub const MAX_NODES: u64 = 0xffff_fffe;

// --- How it is held.

/// The handles of a tree of nodes.
pub struct HandleTree {
    pub handle: DataResultHandle,
    pub children: Seq<HandleTree>,
}

/// All handles in a tree.
pub open spec fn handles(tree: HandleTree) -> Set<DataResultHandle>
    decreases tree,
{
    handles_below(tree.children).insert(tree.handle)
}

pub open spec fn handles_below(trees: Seq<HandleTree>) -> Set<DataResultHandle>
    decreases trees,
{
    if trees.len() == 0 {
        Set::empty()
    } else {
        handles_below(trees.drop_last()).union(handles(trees.last()))
    }
}

/// Whether no handle occurs twice in a tree.
pub open spec fn apart(tree: HandleTree) -> bool
    decreases tree,
{
    !handles_below(tree.children).contains(tree.handle) && all_apart(tree.children)
}

pub open spec fn all_apart(trees: Seq<HandleTree>) -> bool
    decreases trees,
{
    trees.len() == 0 || (all_apart(trees.drop_last()) && apart(trees.last()) && handles_below(
        trees.drop_last(),
    ).disjoint(handles(trees.last())))
}

/// The handles at the tops of several trees.
pub open spec fn tops(trees: Seq<HandleTree>) -> Seq<DataResultHandle> {
    Seq::new(trees.len(), |i: int| trees[i].handle)
}

/// Whether nodes hang together as a tree of handles says.
pub open spec fn linked(nodes: Map<DataResultHandle, DataResultNode>, tree: HandleTree) -> bool
    decreases tree,
{
    &&& nodes.contains_key(tree.handle)
    &&& handle_list(nodes[tree.handle].children) == tops(tree.children)
    &&& all_linked(nodes, tree.children)
}

pub open spec fn all_linked(
    nodes: Map<DataResultHandle, DataResultNode>,
    trees: Seq<HandleTree>,
) -> bool
    decreases trees,
{
    trees.len() == 0 || (all_linked(nodes, trees.drop_last()) && linked(nodes, trees.last()))
}

/// The results that a tree of handles leads to.
pub open spec fn results_at(nodes: Map<DataResultHandle, DataResultNode>, tree: HandleTree)
    -> ResultTree
    decreases tree,
{
    ResultTree {
        result: nodes[tree.handle].data_result@,
        children: all_results(nodes, tree.children),
    }
}

pub open spec fn all_results(
    nodes: Map<DataResultHandle, DataResultNode>,
    trees: Seq<HandleTree>,
) -> Seq<ResultTree>
    decreases trees,
{
    if trees.len() == 0 {
        Seq::empty()
    } else {
        all_results(nodes, trees.drop_last()).push(results_at(nodes, trees.last()))
    }
}

/// Whether some nodes are the same in two maps.
pub open spec fn agree_on(
    a: Map<DataResultHandle, DataResultNode>,
    b: Map<DataResultHandle, DataResultNode>,
    handles: Set<DataResultHandle>,
) -> bool {
    forall|handle: DataResultHandle| #[trigger]
        handles.contains(handle) && a.contains_key(handle) ==> b.contains_key(handle) && a[handle]
            == b[handle]
}

/// What a tree of handles leads to depends on the nodes in it alone.
pub proof fn lemma_same_nodes(
    a: Map<DataResultHandle, DataResultNode>,
    b: Map<DataResultHandle, DataResultNode>,
    tree: HandleTree,
)
    requires
        linked(a, tree),
        agree_on(a, b, handles(tree)),
    ensures
        linked(b, tree),
        results_at(b, tree) == results_at(a, tree),
    decreases tree,
{
    assert(handles(tree).contains(tree.handle));
    assert(agree_on(a, b, handles_below(tree.children))) by {
        assert forall|handle: DataResultHandle| #[trigger]
            handles_below(tree.children).contains(handle) && a.contains_key(handle) implies
            b.contains_key(handle) && a[handle] == b[handle] by {
            assert(handles(tree).contains(handle));
        }
    }
    lemma_same_nodes_below(a, b, tree.children);
}

pub proof fn lemma_same_nodes_below(
    a: Map<DataResultHandle, DataResultNode>,
    b: Map<DataResultHandle, DataResultNode>,
    trees: Seq<HandleTree>,
)
    requires
        all_linked(a, trees),
        agree_on(a, b, handles_below(trees)),
    ensures
        all_linked(b, trees),
        all_results(b, trees) == all_results(a, trees),
    decreases trees,
{
    if trees.len() > 0 {
        assert(agree_on(a, b, handles_below(trees.drop_last()))) by {
            assert forall|handle: DataResultHandle| #[trigger]
                handles_below(trees.drop_last()).contains(handle) && a.contains_key(
                    handle,
                ) implies b.contains_key(handle) && a[handle] == b[handle] by {
                assert(handles_below(trees).contains(handle));
            }
        }
        assert(agree_on(a, b, handles(trees.last()))) by {
            assert forall|handle: DataResultHandle| #[trigger]
                handles(trees.last()).contains(handle) && a.contains_key(handle) implies
                b.contains_key(handle) && a[handle] == b[handle] by {
                assert(handles_below(trees).contains(handle));
            }
        }
        lemma_same_nodes_below(a, b, trees.drop_last());
        lemma_same_nodes(a, b, trees.last());
    }
}

/// Whether no name occurs twice.
pub open spec fn names_differ(names: Seq<ViewSystemIdentifier>) -> bool {
    forall|i: int, j: int|
        #![trigger names[i], names[j]]
        0 <= i < j < names.len() ==> names[i]@ != names[j]@
}

/// Law: an entity has no visualizer twice.
pub proof fn law_visualizers_differ(
    entries: Seq<(ViewSystemIdentifier, Vec<EntityPath>)>,
    path: EntityPath,
)
    requires
        without_repeats(entries),
    ensures
        names_differ(visualizers_for(entries, path)),
        forall|k: int|
            0 <= k < visualizers_for(entries, path).len() ==> exists|i: int|
                0 <= i < entries.len() && (#[trigger] entries[i]).0 == (
                #[trigger] visualizers_for(entries, path)[k]),
    decreases entries.len(),
{
    if entries.len() > 0 {
        let init = entries.drop_last();
        let n = init.len() as int;
        assert forall|i: int, j: int|
            #![trigger init[i], init[j]]
            0 <= i < j < init.len() implies init[i].0@ != init[j].0@ by {
            assert(entries[i] == init[i] && entries[j] == init[j]);
        }
        assert forall|i: int, a: int, b: int|
            #![trigger init[i].1@[a], init[i].1@[b]]
            0 <= i < init.len() && 0 <= a < b < init[i].1@.len() implies entity_path_hash(
            init[i].1@[a],
        ) != entity_path_hash(init[i].1@[b]) by {
            assert(entity_path_hash(entries[i].1@[a]) != entity_path_hash(entries[i].1@[b]));
        }
        law_visualizers_differ(init, path);
        let rest = visualizers_for(init, path);
        let all = visualizers_for(entries, path);
        assert forall|k: int| 0 <= k < all.len() implies exists|i: int|
            0 <= i < entries.len() && (#[trigger] entries[i]).0 == (#[trigger] all[k]) by {
            if k < rest.len() {
                assert(all[k] == rest[k]);
                let i = choose|i: int| 0 <= i < init.len() && (#[trigger] init[i]).0 == rest[k];
                assert(entries[i] == init[i]);
            } else {
                assert(entries[n].0 == all[k]);
            }
        }
        assert forall|a: int, b: int|
            #![trigger all[a], all[b]]
            0 <= a < b < all.len() implies all[a]@ != all[b]@ by {
            assert(all[a] == rest[a]);
            if b < rest.len() {
                assert(all[b] == rest[b]);
            } else {
                let i = choose|i: int| 0 <= i < init.len() && (#[trigger] init[i]).0 == rest[a];
                assert(entries[i] == init[i]);
                assert(entries[n].0 == all[b]);
            }
        }
    }
}

impl PerVisualizer {
    pub open spec fn wf(self) -> bool {
        without_repeats(self.entries@)
    }

    pub fn new() -> (r: PerVisualizer)
        ensures
            r.wf(),
            r.entries@ == Seq::<(ViewSystemIdentifier, Vec<EntityPath>)>::empty(),
    {
        PerVisualizer { entries: Vec::new() }
    }

    /// The visualizers that an entity is listed for, in order.
    pub(crate) fn visualizers_of(&self, path: &EntityPath) -> (r: crate::data_result::SystemList)
        ensures
            system_list(r) == visualizers_for(self.entries@, *path),
    {
        let mut systems = new_system_list();
        let mut i: usize = 0;
        while i < self.entries.len()
            invariant
                i <= self.entries@.len(),
                system_list(systems) == visualizers_for(self.entries@.take(i as int), *path),
            decreases self.entries@.len() - i,
        {
            assert(self.entries@.take(i + 1).drop_last() =~= self.entries@.take(i as int));
            if is_one_of_paths(path, &self.entries[i].1) {
                push_system(&mut systems, self.entries[i].0);
            }
            i += 1;
        }
        assert(self.entries@.take(i as int) =~= self.entries@);
        systems
    }
}

/// What a query finds, as a tree.
pub struct DataResultTree {
    pub data_results: NodeMap,
    pub root_handle: Option<DataResultHandle>,
    /// How the nodes hang together.
    pub layout: Ghost<Option<HandleTree>>,
}

impl View for DataResultTree {
    type V = Option<ResultTree>;

    open spec fn view(&self) -> Option<ResultTree> {
        match self.layout@ {
            Some(tree) => Some(results_at(node_map(self.data_results), tree)),
            None => None,
        }
    }
}

impl DataResultTree {
    pub open spec fn wf(self) -> bool {
        match self.layout@ {
            Some(tree) => {
                &&& self.root_handle == Some(tree.handle)
                &&& linked(node_map(self.data_results), tree)
                &&& apart(tree)
            },
            None => self.root_handle is None,
        }
    }

    /// The handle of the topmost entity.
    pub fn root_handle(&self) -> (r: Option<DataResultHandle>)
        ensures
            r == self.root_handle,
    {
        self.root_handle
    }
}

/// What a query finds.
pub struct DataQueryResult {
    pub tree: DataResultTree,
    /// How many entities the filter lets through.
    pub num_matching_entities: usize,
    /// How many of these something can show.
    pub num_visualized_entities: usize,
}

/// A query that is being carried out.
pub(crate) struct QueryExpressionEvaluator<'a> {
    pub visualizable_entities: &'a PerVisualizer,
    pub entity_path_filter: PathFilter,
}

impl<'a> QueryExpressionEvaluator<'a> {
    /// Adds what is found in a tree, children before parents.
    fn add_entity_tree_to_data_results_recursive(
        &self,
        tree: &EntityTree,
        data_results: &mut NodeMap,
        num_matching_entities: &mut usize,
        num_visualized_entities: &mut usize,
    ) -> (r: (Option<DataResultHandle>, Ghost<Option<HandleTree>>))
        requires
            node_map(*old(data_results)).dom().finite(),
            node_map(*old(data_results)).len() + num_entities(*tree) <= MAX_NODES,
            *old(num_matching_entities) + num_entities(*tree) <= MAX_NODES,
            *old(num_visualized_entities) + num_entities(*tree) <= MAX_NODES,
        ensures
            node_map(*final(data_results)).dom().finite(),
            node_map(*final(data_results)).len() <= node_map(*old(data_results)).len()
                + num_entities(*tree),
            agree_on(
                node_map(*old(data_results)),
                node_map(*final(data_results)),
                node_map(*old(data_results)).dom(),
            ),
            *final(num_matching_entities) == *old(num_matching_entities) + num_matching(
                *tree,
                self.entity_path_filter@,
            ),
            *final(num_matching_entities) <= *old(num_matching_entities) + num_entities(*tree),
            *final(num_visualized_entities) == *old(num_visualized_entities) + num_visualized(
                *tree,
                self.entity_path_filter@,
                self.visualizable_entities.entries@,
            ),
            *final(num_visualized_entities) <= *old(num_visualized_entities) + num_entities(*tree),
            match (r.0, r.1@, found_in(
                *tree,
                self.entity_path_filter@,
                self.visualizable_entities.entries@,
            )) {
                (None, None, None) => true,
                (Some(handle), Some(layout), Some(found)) => {
                    &&& layout.handle == handle
                    &&& linked(node_map(*final(data_results)), layout)
                    &&& apart(layout)
                    &&& handles(layout).disjoint(node_map(*old(data_results)).dom())
                    &&& handles(layout).subset_of(node_map(*final(data_results)).dom())
                    &&& results_at(node_map(*final(data_results)), layout) == found
                },
                _ => false,
            },
        decreases *tree,
    {
        let ghost rules = self.entity_path_filter@;
        let ghost visualizable = self.visualizable_entities.entries@;
        let ghost before = node_map(*data_results);
        if !self.entity_path_filter.is_anything_in_subtree_included(&tree.path) {
            return (None, Ghost(None));
        }
        let matches_filter = self.entity_path_filter.is_included(&tree.path);
        if matches_filter {
            *num_matching_entities += 1;
        }
        let visualizers = if matches_filter {
            self.visualizable_entities.visualizers_of(&tree.path)
        } else {
            new_system_list()
        };
        let is_visualized = systems_of(&visualizers).len() > 0;
        if is_visualized {
            *num_visualized_entities += 1;
        }
        let mut children = new_handle_list();
        let ghost mut below: Seq<HandleTree> = Seq::empty();
        let mut i: usize = 0;
        while i < tree.children.len()
            invariant
                i <= tree.children@.len(),
                rules == self.entity_path_filter@,
                visualizable == self.visualizable_entities.entries@,
                before == node_map(*old(data_results)),
                node_map(*data_results).dom().finite(),
                node_map(*data_results).len() <= before.len() + num_entities_below(
                    tree.children@.take(i as int),
                ),
                before.len() + num_entities(*tree) <= MAX_NODES,
                agree_on(before, node_map(*data_results), before.dom()),
                *old(num_matching_entities) + num_entities(*tree) <= MAX_NODES,
                *old(num_visualized_entities) + num_entities(*tree) <= MAX_NODES,
                *num_matching_entities == *old(num_matching_entities) + one_if(matches_filter)
                    + num_matching_below(tree.children@.take(i as int), rules),
                *num_matching_entities <= *old(num_matching_entities) + 1 + num_entities_below(
                    tree.children@.take(i as int),
                ),
                *num_visualized_entities == *old(num_visualized_entities) + one_if(is_visualized)
                    + num_visualized_below(tree.children@.take(i as int), rules, visualizable),
                *num_visualized_entities <= *old(num_visualized_entities) + 1 + num_entities_below(
                    tree.children@.take(i as int),
                ),
                handle_list(children) == tops(below),
                all_linked(node_map(*data_results), below),
                all_apart(below),
                handles_below(below).disjoint(before.dom()),
                handles_below(below).subset_of(node_map(*data_results).dom()),
                all_results(node_map(*data_results), below) == found_below(
                    tree.children@.take(i as int),
                    rules,
                    visualizable,
                ),
            decreases tree.children@.len() - i,
        {
            let ghost now = node_map(*data_results);
            proof {
                lemma_num_entities_below(tree.children@, i as int);
                assert(tree.children@.take(i + 1).drop_last() =~= tree.children@.take(i as int));
                assert(tree.children@.take(i + 1).last() == tree.children@[i as int]);
            }
            let (handle, Ghost(layout)) = self.add_entity_tree_to_data_results_recursive(
                &tree.children[i],
                data_results,
                num_matching_entities,
                num_visualized_entities,
            );
            proof {
                let after = node_map(*data_results);
                assert(agree_on(before, after, before.dom())) by {
                    assert forall|h: DataResultHandle| #[trigger]
                        before.dom().contains(h) && before.contains_key(h) implies after.contains_key(
                        h,
                    ) && before[h] == after[h] by {
                        assert(now.dom().contains(h));
                    }
                }
                assert(agree_on(now, after, handles_below(below))) by {
                    assert forall|h: DataResultHandle| #[trigger]
                        handles_below(below).contains(h) && now.contains_key(h) implies after.contains_key(
                        h,
                    ) && now[h] == after[h] by {
                        assert(now.dom().contains(h));
                    }
                }
                lemma_same_nodes_below(now, after, below);
                assert(handles_below(below).subset_of(after.dom())) by {
                    assert forall|h: DataResultHandle|
                        handles_below(below).contains(h) implies after.dom().contains(h) by {
                        assert(now.dom().contains(h));
                    }
                }
            }
            if let Some(handle) = handle {
                push_handle(&mut children, handle);
                proof {
                    let tree = layout->0;
                    let more = below.push(tree);
                    assert(more.drop_last() =~= below);
                    assert(tops(more) =~= tops(below).push(handle));
                    assert(handles_below(below).disjoint(handles(tree))) by {
                        assert forall|h: DataResultHandle| #[trigger]
                            handles_below(below).contains(h) implies !handles(tree).contains(h) by {
                            assert(now.dom().contains(h));
                        }
                    }
                    assert(handles(tree).disjoint(before.dom())) by {
                        assert forall|h: DataResultHandle| #[trigger]
                            handles(tree).contains(h) implies !before.dom().contains(h) by {
                            assert(!now.dom().contains(h));
                        }
                    }
                    below = more;
                }
            }
            i += 1;
        }
        assert(tree.children@.take(i as int) =~= tree.children@);
        // Branches that have nothing to show and that no rule names are left out.
        let has_children = handles_of(&children).len() > 0;
        let ghost now = node_map(*data_results);
        proof {
            lemma_num_results(now, below);
        }
        if self.entity_path_filter.is_exact_included(&tree.path) || has_children
            || is_visualized {
            let data_result = DataResult {
                entity_path: clone_path(&tree.path),
                visualizers,
                tree_prefix_only: !matches_filter,
                property_overrides: None,
            };
            let handle = insert_node(data_results, DataResultNode { data_result, children });
            let ghost layout = HandleTree { handle, children: below };
            proof {
                let after = node_map(*data_results);
                assert(!handles_below(below).contains(handle));
                lemma_same_nodes_below(now, after, below);
                let found = found_in(*tree, rules, visualizable)->0;
                assert(results_at(after, layout).result =~= found.result);
                assert(results_at(after, layout) == found);
            }
            (Some(handle), Ghost(Some(layout)))
        } else {
            (None, Ghost(None))
        }
    }
}

proof fn lemma_num_entities_below(trees: Seq<EntityTree>, i: int)
    requires
        0 <= i < trees.len(),
    ensures
        num_entities_below(trees.take(i)) + num_entities(trees[i]) <= num_entities_below(trees),
    decreases trees.len() - i,
{
    assert(trees.take(i + 1).drop_last() =~= trees.take(i));
    assert(num_entities_below(trees.take(i + 1)) == num_entities_below(trees.take(i))
        + num_entities(trees[i]));
    if i + 1 < trees.len() {
        lemma_num_entities_below(trees, i + 1);
    } else {
        assert(trees.take(i + 1) =~= trees);
    }
}

/// There is one result for each tree of handles.
pub proof fn lemma_num_results(
    nodes: Map<DataResultHandle, DataResultNode>,
    trees: Seq<HandleTree>,
)
    ensures
        all_results(nodes, trees).len() == trees.len(),
        forall|i: int|
            0 <= i < trees.len() ==> #[trigger] all_results(nodes, trees)[i] == results_at(
                nodes,
                trees[i],
            ),
    decreases trees.len(),
{
    if trees.len() > 0 {
        lemma_num_results(nodes, trees.drop_last());
    }
}

// --- Going through it.

/// A result and everything below it, parents before children, children in order.
pub open spec fn results_listed(tree: ResultTree) -> Seq<ResultView>
    decreases tree,
{
    seq![tree.result] + all_results_listed(tree.children)
}

pub open spec fn all_results_listed(trees: Seq<ResultTree>) -> Seq<ResultView>
    decreases trees,
{
    if trees.len() == 0 {
        Seq::empty()
    } else {
        all_results_listed(trees.drop_last()) + results_listed(trees.last())
    }
}

/// All results of a query; none if there is not even a topmost one.
pub open spec fn results_of(tree: Option<ResultTree>) -> Seq<ResultView> {
    match tree {
        Some(tree) => results_listed(tree),
        None => Seq::empty(),
    }
}

pub open spec fn result_views(results: Seq<&DataResult>) -> Seq<ResultView> {
    Seq::new(results.len(), |i: int| results[i]@)
}

proof fn lemma_all_linked(
    nodes: Map<DataResultHandle, DataResultNode>,
    trees: Seq<HandleTree>,
    i: int,
)
    requires
        all_linked(nodes, trees),
        0 <= i < trees.len(),
    ensures
        linked(nodes, trees[i]),
        all_linked(nodes, trees.take(i)),
    decreases trees.len(),
{
    if i < trees.len() - 1 {
        lemma_all_linked(nodes, trees.drop_last(), i);
        assert(trees.drop_last().take(i) =~= trees.take(i));
    } else {
        assert(trees.take(i) =~= trees.drop_last());
    }
}

impl DataResultTree {
    fn visit_recursive<'a>(
        &'a self,
        handle: DataResultHandle,
        out: &mut Vec<&'a DataResult>,
        Ghost(layout): Ghost<HandleTree>,
    )
        requires
            layout.handle == handle,
            linked(node_map(self.data_results), layout),
        ensures
            result_views(final(out)@) == result_views(old(out)@) + results_listed(
                results_at(node_map(self.data_results), layout),
            ),
        decreases layout,
    {
        let ghost nodes = node_map(self.data_results);
        let ghost first = result_views(out@);
        let node = node_at_handle(&self.data_results, handle);
        out.push(&node.data_result);
        assert(result_views(out@) =~= first + seq![node.data_result@]);
        let children = handles_of(&node.children);
        let mut i: usize = 0;
        assert(all_results(nodes, layout.children.take(0)) =~= Seq::empty());
        assert(result_views(out@) =~= first + seq![node.data_result@] + all_results_listed(
            all_results(nodes, layout.children.take(0)),
        ));
        while i < children.len()
            invariant
                i <= children@.len(),
                nodes == node_map(self.data_results),
                children@ == tops(layout.children),
                all_linked(nodes, layout.children),
                result_views(out@) == first + seq![node.data_result@] + all_results_listed(
                    all_results(nodes, layout.children.take(i as int)),
                ),
            decreases children@.len() - i,
        {
            let ghost child = layout.children[i as int];
            proof {
                lemma_all_linked(nodes, layout.children, i as int);
                assert(layout.children.take(i + 1).drop_last() =~= layout.children.take(i as int));
                let so_far = all_results(nodes, layout.children.take(i as int));
                assert(all_results(nodes, layout.children.take(i + 1)) == so_far.push(
                    results_at(nodes, child),
                ));
                assert(so_far.push(results_at(nodes, child)).drop_last() =~= so_far);
            }
            self.visit_recursive(children[i], out, Ghost(child));
            assert(result_views(out@) =~= first + seq![node.data_result@] + all_results_listed(
                all_results(nodes, layout.children.take(i + 1)),
            ));
            i += 1;
        }
        assert(layout.children.take(i as int) =~= layout.children);
        assert(result_views(out@) =~= result_views(old(out)@) + results_listed(
            results_at(nodes, layout),
        ));
    }

    /// All results, parents before children, children in order.
    pub fn visit(&self) -> (r: Vec<&DataResult>)
        requires
            self.wf(),
        ensures
            result_views(r@) == results_of(self@),
    {
        let mut out: Vec<&DataResult> = Vec::new();
        if let Some(handle) = self.root_handle {
            assert(result_views(out@) =~= Seq::empty());
            self.visit_recursive(handle, &mut out, Ghost(self.layout@->0));
        }
        assert(result_views(out@) =~= results_of(self@));
        out
    }

    /// The result for an entity.
    pub fn lookup_result_by_path(&self, path: &EntityPath) -> (r: Option<&DataResult>)
        requires
            self.wf(),
        ensures
            match r {
                Some(result) => exists|i: int|
                    0 <= i < results_of(self@).len() && #[trigger] results_of(self@)[i] == result@
                        && is_first_for(results_of(self@), *path, i),
                None => forall|i: int|
                    0 <= i < results_of(self@).len() ==> entity_path_hash(
                        (#[trigger] results_of(self@)[i]).path,
                    ) != entity_path_hash(*path),
            },
    {
        let results = self.visit();
        let ghost listed = results_of(self@);
        let mut i: usize = 0;
        while i < results.len()
            invariant
                i <= results@.len(),
                listed == results_of(self@),
                result_views(results@) == listed,
                forall|j: int|
                    0 <= j < i ==> entity_path_hash((#[trigger] listed[j]).path)
                        != entity_path_hash(*path),
            decreases results@.len() - i,
        {
            assert(listed[i as int] == results@[i as int]@);
            if same_path(&results[i].entity_path, path) {
                assert(is_first_for(listed, *path, i as int));
                return Some(results[i]);
            }
            i += 1;
        }
        None
    }
}

/// Whether a result is the first one for an entity.
pub open spec fn is_first_for(results: Seq<ResultView>, path: EntityPath, i: int) -> bool {
    &&& entity_path_hash(results[i].path) == entity_path_hash(path)
    &&& forall|j: int|
        0 <= j < i ==> entity_path_hash((#[trigger] results[j]).path) != entity_path_hash(path)
}

impl<'a> QueryExpressionEvaluator<'a> {
    /// What is found in a tree.
    pub(crate) fn evaluate(&self, tree: &EntityTree) -> (r: DataQueryResult)
        requires
            num_entities(*tree) <= MAX_NODES,
        ensures
            r.tree.wf(),
            r.tree@ == found_in(
                *tree,
                self.entity_path_filter@,
                self.visualizable_entities.entries@,
            ),
            r.num_matching_entities == num_matching(
                *tree,
                self.entity_path_filter@,
            ),
            r.num_visualized_entities == num_visualized(
                *tree,
                self.entity_path_filter@,
                self.visualizable_entities.entries@,
            ),
    {
        let mut data_results = new_node_map();
        let mut num_matching_entities: usize = 0;
        let mut num_visualized_entities: usize = 0;
        let (root_handle, layout) = self.add_entity_tree_to_data_results_recursive(
            tree,
            &mut data_results,
            &mut num_matching_entities,
            &mut num_visualized_entities,
        );
        DataQueryResult {
            tree: DataResultTree { data_results, root_handle, layout },
            num_matching_entities,
            num_visualized_entities,
        }
    }
}

} // verus!

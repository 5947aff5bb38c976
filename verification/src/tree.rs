//! The hierarchy of entities, as a tree split on path parts.
use crate::names::ComponentName;
use crate::path::{
    clone_path, comes_before, entity_path_parts, lies_under, part_before, path_before, path_len,
    path_part, path_prefix, root_path,
};
use crate::row::{event_diffs, DataCell, DiffView, StoreDiff, StoreDiffKind, StoreEvent};
use crate::times::count_changed;
use re_log_types::EntityPath;
use vstd::prelude::*;

verus! {

/// How many cells of a component an entity has.
#[derive(Clone, Copy, Debug, PartialEq, Eq)]
pub struct ComponentInfo {
    pub name: ComponentName,
    pub num_static: u64,
    pub num_temporal: u64,
}

/// An entity and everything below it.
#[derive(Debug)]
pub struct EntityTree {
    /// The whole path from the root.
    pub path: EntityPath,
    /// The last part of the path; nothing for the root.
    pub name: String,
    /// The components of this very entity.
    pub components: Vec<ComponentInfo>,
    /// In the natural order of their names.
    pub children: Vec<EntityTree>,
}

/// What contracts know of a tree.
pub struct TreeView {
    pub name: Seq<char>,
    pub components: Seq<ComponentInfo>,
    pub children: Seq<TreeView>,
}

pub open spec fn tree_view(tree: EntityTree) -> TreeView
    decreases tree,
{
    TreeView {
        name: tree.name@,
        components: tree.components@,
        children: Seq::new(
            tree.children@.len(),
            |i: int|
                if 0 <= i < tree.children@.len() {
                    tree_view(tree.children@[i])
                } else {
                    arbitrary()
                },
        ),
    }
}

impl View for EntityTree {
    type V = TreeView;

    open spec fn view(&self) -> TreeView {
        tree_view(*self)
    }
}

/// Whether nodes are in the natural order of their names, each of which occurs once.
pub open spec fn names_ordered(children: Seq<EntityTree>) -> bool {
    forall|i: int, j: int|
        #![trigger children[i], children[j]]
        0 <= i < j < children.len() ==> comes_before(children[i].name@, children[j].name@)
}

/// Nodes stay in order when one is put where it belongs.
proof fn lemma_names_ordered(children: Seq<EntityTree>, child: EntityTree, at: int)
    requires
        names_ordered(children),
        0 <= at <= children.len(),
        at > 0 ==> comes_before(children[at - 1].name@, child.name@),
        forall|k: int|
            at <= k < children.len() ==> comes_before(child.name@, (#[trigger] children[k]).name@),
    ensures
        names_ordered(children.insert(at, child)),
{
    let out = children.insert(at, child);
    assert forall|i: int, j: int|
        #![trigger out[i], out[j]]
        0 <= i < j < out.len() implies comes_before(out[i].name@, out[j].name@) by {
        let a = if i < at {
            i
        } else {
            i - 1
        };
        let b = if j < at {
            j
        } else {
            j - 1
        };
        if i == at {
            assert(out[j] == children[b]);
        } else if j == at {
            assert(out[i] == children[a]);
            if a < at - 1 {
                assert(comes_before(children[a].name@, children[at - 1].name@));
                crate::path::lemma_key_transitive(
                    crate::path::natural_key(children[a].name@),
                    crate::path::natural_key(children[at - 1].name@),
                    crate::path::natural_key(child.name@),
                );
            }
        } else {
            assert(comes_before(children[a].name@, children[b].name@));
        }
    }
}

/// Whether the path of every node leads to it, and children are in order.
pub open spec fn paths_lead(tree: EntityTree, parts: Seq<Seq<char>>) -> bool
    decreases tree,
{
    &&& entity_path_parts(tree.path) == parts
    &&& names_ordered(tree.children@)
    &&& forall|i: int|
        0 <= i < tree.children@.len() ==> paths_lead(
            #[trigger] tree.children@[i],
            parts.push(tree.children@[i].name@),
        )
}

/// What the view of a tree is made of.
pub proof fn lemma_tree_view(tree: EntityTree)
    ensures
        tree@ == (TreeView {
            name: tree.name@,
            components: tree.components@,
            children: Seq::new(tree.children@.len(), |i: int| tree.children@[i]@),
        }),
{
    assert(tree@.children =~= Seq::new(tree.children@.len(), |i: int| tree.children@[i]@));
}

/// What it takes for all paths of a tree to lead to their nodes.
pub proof fn lemma_paths_lead(tree: EntityTree, parts: Seq<Seq<char>>)
    ensures
        paths_lead(tree, parts) <==> {
            &&& entity_path_parts(tree.path) == parts
            &&& names_ordered(tree.children@)
            &&& forall|i: int|
                0 <= i < tree.children@.len() ==> paths_lead(
                    #[trigger] tree.children@[i],
                    parts.push(tree.children@[i].name@),
                )
        },
{
}

impl EntityTree {
    /// Whether this is the tree of all entities.
    pub open spec fn wf(self) -> bool {
        paths_lead(self, Seq::empty())
    }
}

/// The node without anything in it.
pub open spec fn leaf(name: Seq<char>) -> TreeView {
    TreeView { name, components: Seq::empty(), children: Seq::empty() }
}

/// The position of the child of a given name.
pub open spec fn child_index(children: Seq<TreeView>, name: Seq<char>) -> Option<int>
    decreases children.len(),
{
    if children.len() == 0 {
        None
    } else {
        match child_index(children.drop_last(), name) {
            Some(i) => Some(i),
            None => if children.last().name == name {
                Some(children.len() - 1)
            } else {
                None
            },
        }
    }
}

/// Where a new child belongs.
pub open spec fn child_position(children: Seq<TreeView>, name: Seq<char>) -> int
    decreases children.len(),
{
    if children.len() == 0 {
        0
    } else if !comes_before(name, children.last().name) {
        children.len() as int
    } else {
        child_position(children.drop_last(), name)
    }
}

/// The node that a path leads to, counting from its `depth`-th part.
pub open spec fn subtree_at(tree: TreeView, parts: Seq<Seq<char>>, depth: int) -> Option<TreeView>
    decreases parts.len() - depth,
{
    if depth < 0 || depth >= parts.len() {
        Some(tree)
    } else {
        match child_index(tree.children, parts[depth]) {
            Some(i) => subtree_at(tree.children[i], parts, depth + 1),
            None => None,
        }
    }
}

/// The node itself that a path leads to, counting from its `depth`-th part.
pub open spec fn node_at(tree: EntityTree, parts: Seq<Seq<char>>, depth: int) -> Option<EntityTree>
    decreases parts.len() - depth,
{
    if depth < 0 || depth >= parts.len() {
        Some(tree)
    } else {
        match child_index(tree@.children, parts[depth]) {
            Some(i) => node_at(tree.children@[i], parts, depth + 1),
            None => None,
        }
    }
}

/// The position of a component.
pub open spec fn component_index(components: Seq<ComponentInfo>, name: Seq<char>) -> Option<int>
    decreases components.len(),
{
    if components.len() == 0 {
        None
    } else {
        match component_index(components.drop_last(), name) {
            Some(i) => Some(i),
            None => if components.last().name@ == name {
                Some(components.len() - 1)
            } else {
                None
            },
        }
    }
}

/// What is known of a component once a cell was added or removed.
pub open spec fn info_changed(info: ComponentInfo, add: bool, is_static: bool) -> ComponentInfo {
    if is_static {
        ComponentInfo { num_static: count_changed(info.num_static as int, add, 1) as u64, ..info }
    } else {
        ComponentInfo {
            num_temporal: count_changed(info.num_temporal as int, add, 1) as u64,
            ..info
        }
    }
}

/// The components of an entity once cells were added or removed.
pub open spec fn components_changed(
    components: Seq<ComponentInfo>,
    cells: Seq<DataCell>,
    add: bool,
    is_static: bool,
) -> Seq<ComponentInfo>
    decreases cells.len(),
{
    if cells.len() == 0 {
        components
    } else {
        let rest = components_changed(components, cells.drop_last(), add, is_static);
        let name = cells.last().component_name;
        match component_index(rest, name@) {
            Some(i) => rest.update(i, info_changed(rest[i], add, is_static)),
            None => if add {
                rest.push(
                    info_changed(
                        ComponentInfo { name, num_static: 0, num_temporal: 0 },
                        add,
                        is_static,
                    ),
                )
            } else {
                rest
            },
        }
    }
}

/// The tree once a row was added to it or removed from it, counting from the `depth`-th part of
/// the path. Nodes come into being on the way to what is added; none ever goes away.
pub open spec fn tree_changed(
    tree: TreeView,
    parts: Seq<Seq<char>>,
    depth: int,
    diff: DiffView,
) -> TreeView
    decreases parts.len() - depth,
{
    let add = diff.kind is Addition;
    if depth < 0 || depth >= parts.len() {
        TreeView {
            components: components_changed(
                tree.components,
                diff.cells,
                add,
                diff.times.len() == 0,
            ),
            ..tree
        }
    } else {
        let name = parts[depth];
        match child_index(tree.children, name) {
            Some(i) => TreeView {
                children: tree.children.update(
                    i,
                    tree_changed(tree.children[i], parts, depth + 1, diff),
                ),
                ..tree
            },
            None => if add {
                TreeView {
                    children: tree.children.insert(
                        child_position(tree.children, name),
                        tree_changed(leaf(name), parts, depth + 1, diff),
                    ),
                    ..tree
                }
            } else {
                tree
            },
        }
    }
}

/// The tree after some events.
pub open spec fn tree_after(tree: TreeView, diffs: Seq<DiffView>) -> TreeView
    decreases diffs.len(),
{
    if diffs.len() == 0 {
        tree
    } else {
        let diff = diffs.last();
        tree_changed(
            tree_after(tree, diffs.drop_last()),
            entity_path_parts(diff.entity_path),
            0,
            diff,
        )
    }
}

proof fn lemma_child_index_prefix(children: Seq<TreeView>, name: Seq<char>, n: int)
    requires
        0 <= n <= children.len(),
        child_index(children.take(n), name) is Some,
    ensures
        child_index(children, name) == child_index(children.take(n), name),
    decreases children.len(),
{
    if n == children.len() {
        assert(children.take(n) =~= children);
    } else {
        assert(children.drop_last().take(n) =~= children.take(n));
        lemma_child_index_prefix(children.drop_last(), name, n);
    }
}

proof fn lemma_component_index_prefix(components: Seq<ComponentInfo>, name: Seq<char>, n: int)
    requires
        0 <= n <= components.len(),
        component_index(components.take(n), name) is Some,
    ensures
        component_index(components, name) == component_index(components.take(n), name),
    decreases components.len(),
{
    if n == components.len() {
        assert(components.take(n) =~= components);
    } else {
        assert(components.drop_last().take(n) =~= components.take(n));
        lemma_component_index_prefix(components.drop_last(), name, n);
    }
}

/// The position of a component.
pub fn find_component_info(components: &Vec<ComponentInfo>, name: &ComponentName) -> (r: Option<
    usize,
>)
    ensures
        match r {
            Some(i) => i < components@.len() && component_index(components@, name@) == Some(
                i as int,
            ),
            None => component_index(components@, name@) is None,
        },
{
    let ghost all = components@;
    let mut i: usize = 0;
    while i < components.len()
        invariant
            i <= components@.len(),
            all == components@,
            component_index(all.take(i as int), name@) is None,
        decreases components@.len() - i,
    {
        assert(all.take(i + 1).drop_last() =~= all.take(i as int));
        if components[i].name.is(name) {
            proof {
                assert(component_index(all.take(i + 1), name@) == Some(i as int));
                lemma_component_index_prefix(all, name@, i + 1);
            }
            return Some(i);
        }
        i += 1;
    }
    assert(all.take(i as int) =~= all);
    None
}

/// One more, or one less.
fn change_count(count: u64, add: bool) -> (r: u64)
    ensures
        r == count_changed(count as int, add, 1),
{
    if add {
        if count == u64::MAX {
            count
        } else {
            count + 1
        }
    } else if count == 0 {
        0
    } else {
        count - 1
    }
}

fn change_info(info: ComponentInfo, add: bool, is_static: bool) -> (r: ComponentInfo)
    ensures
        r == info_changed(info, add, is_static),
{
    if is_static {
        ComponentInfo { num_static: change_count(info.num_static, add), ..info }
    } else {
        ComponentInfo { num_temporal: change_count(info.num_temporal, add), ..info }
    }
}

fn change_components(
    components: &mut Vec<ComponentInfo>,
    cells: &Vec<DataCell>,
    add: bool,
    is_static: bool,
)
    ensures
        final(components)@ == components_changed(old(components)@, cells@, add, is_static),
{
    let mut c: usize = 0;
    while c < cells.len()
        invariant
            c <= cells@.len(),
            components@ == components_changed(
                old(components)@,
                cells@.take(c as int),
                add,
                is_static,
            ),
        decreases cells@.len() - c,
    {
        assert(cells@.take(c + 1).drop_last() =~= cells@.take(c as int));
        let name = cells[c].component_name;
        match find_component_info(components, &name) {
            Some(i) => {
                let info = change_info(components[i], add, is_static);
                components.set(i, info);
            },
            None => {
                if add {
                    components.push(
                        change_info(
                            ComponentInfo { name, num_static: 0, num_temporal: 0 },
                            add,
                            is_static,
                        ),
                    );
                }
            },
        }
        c += 1;
    }
    assert(cells@.take(c as int) =~= cells@);
}

impl EntityTree {
    /// The root of a hierarchy without any entities.
    pub fn root() -> (r: EntityTree)
        ensures
            r.wf(),
            r@ == leaf(Seq::empty()),
    {
        let r = EntityTree {
            path: root_path(),
            name: String::new(),
            components: Vec::new(),
            children: Vec::new(),
        };
        proof {
            lemma_tree_view(r);
            lemma_paths_lead(r, Seq::empty());
            assert(r@.name =~= Seq::empty());
            assert(r@.components =~= Seq::empty());
            assert(r@.children =~= Seq::empty());
            assert(r@ == leaf(Seq::empty()));
        }
        r
    }

    /// The position of the child of a given name.
    fn find_child(&self, name: &String) -> (r: Option<usize>)
        ensures
            match r {
                Some(i) => i < self.children@.len() && child_index(self@.children, name@) == Some(
                    i as int,
                ) && self.children@[i as int].name@ == name@,
                None => child_index(self@.children, name@) is None && forall|i: int|
                    0 <= i < self.children@.len() ==> (#[trigger] self.children@[i]).name@
                        != name@,
            },
    {
        let ghost all = self@.children;
        proof {
            lemma_tree_view(*self);
        }
        let mut i: usize = 0;
        while i < self.children.len()
            invariant
                i <= self.children@.len(),
                all == self@.children,
                all == Seq::new(self.children@.len(), |i: int| self.children@[i]@),
                child_index(all.take(i as int), name@) is None,
                forall|k: int| 0 <= k < i ==> (#[trigger] self.children@[k]).name@ != name@,
            decreases self.children@.len() - i,
        {
            proof {
                lemma_tree_view(self.children@[i as int]);
            }
            assert(all.take(i + 1).drop_last() =~= all.take(i as int));
            assert(all[i as int].name == self.children@[i as int].name@);
            if self.children[i].name == *name {
                proof {
                    assert(child_index(all.take(i + 1), name@) == Some(i as int));
                    lemma_child_index_prefix(all, name@, i + 1);
                }
                return Some(i);
            }
            i += 1;
        }
        assert(all.take(i as int) =~= all);
        None
    }

    /// The node that the rest of a path leads to.
    fn subtree_from(&self, path: &EntityPath, depth: usize) -> (r: Option<&EntityTree>)
        requires
            depth <= entity_path_parts(*path).len(),
            paths_lead(*self, entity_path_parts(*path).take(depth as int)),
        ensures
            match r {
                Some(node) => {
                    &&& subtree_at(self@, entity_path_parts(*path), depth as int) == Some(node@)
                    &&& node_at(*self, entity_path_parts(*path), depth as int) == Some(*node)
                    &&& paths_lead(*node, entity_path_parts(*path))
                },
                None => {
                    &&& subtree_at(self@, entity_path_parts(*path), depth as int) is None
                    &&& node_at(*self, entity_path_parts(*path), depth as int) is None
                },
            },
        decreases entity_path_parts(*path).len() - depth,
    {
        let ghost parts = entity_path_parts(*path);
        if depth == path_len(path) {
            assert(parts.take(depth as int) =~= parts);
            return Some(self);
        }
        let name = path_part(path, depth);
        match self.find_child(&name) {
            Some(i) => {
                proof {
                    lemma_tree_view(*self);
                    lemma_paths_lead(*self, parts.take(depth as int));
                    assert(paths_lead(
                        self.children@[i as int],
                        parts.take(depth as int).push(self.children@[i as int].name@),
                    ));
                    assert(parts.take(depth + 1) =~= parts.take(depth as int).push(name@));
                    assert(self@.children[i as int] == self.children@[i as int]@);
                }
                self.children[i].subtree_from(path, depth + 1)
            },
            None => None,
        }
    }

    /// The node that a path leads to, if there is one.
    pub fn subtree(&self, path: &EntityPath) -> (r: Option<&EntityTree>)
        requires
            self.wf(),
        ensures
            match r {
                Some(node) => {
                    &&& subtree_at(self@, entity_path_parts(*path), 0) == Some(node@)
                    &&& node_at(*self, entity_path_parts(*path), 0) == Some(*node)
                    &&& paths_lead(*node, entity_path_parts(*path))
                },
                None => {
                    &&& subtree_at(self@, entity_path_parts(*path), 0) is None
                    &&& node_at(*self, entity_path_parts(*path), 0) is None
                },
            },
    {
        assert(entity_path_parts(*path).take(0) =~= Seq::<Seq<char>>::empty());
        self.subtree_from(path, 0)
    }

    /// Takes note of a row that was added or removed.
    fn change(&mut self, depth: usize, diff: &StoreDiff)
        requires
            depth <= entity_path_parts(diff.entity_path).len(),
            paths_lead(*old(self), entity_path_parts(diff.entity_path).take(depth as int)),
        ensures
            paths_lead(*final(self), entity_path_parts(diff.entity_path).take(depth as int)),
            final(self).name == old(self).name,
            final(self).path == old(self).path,
            final(self)@ == tree_changed(
                old(self)@,
                entity_path_parts(diff.entity_path),
                depth as int,
                diff@,
            ),
        decreases entity_path_parts(diff.entity_path).len() - depth,
    {
        let ghost parts = entity_path_parts(diff.entity_path);
        let ghost here = parts.take(depth as int);
        proof {
            lemma_tree_view(*self);
            lemma_paths_lead(*self, here);
        }
        let add = match diff.kind {
            StoreDiffKind::Addition => true,
            StoreDiffKind::Deletion => false,
        };
        if depth == path_len(&diff.entity_path) {
            change_components(&mut self.components, &diff.cells, add, diff.times.len() == 0);
            proof {
                lemma_tree_view(*self);
                lemma_paths_lead(*self, here);
            }
            proof {
                let goal = tree_changed(old(self)@, parts, depth as int, diff@);
                assert(self@.components =~= goal.components);
                assert(self@.children =~= goal.children);
                assert(self@ == goal);
            }
            return;
        }
        let name = path_part(&diff.entity_path, depth);
        assert(parts.take(depth + 1) =~= here.push(name@));
        match self.find_child(&name) {
            Some(i) => {
                assert(paths_lead(
                    self.children@[i as int],
                    here.push(self.children@[i as int].name@),
                ));
                self.children[i].change(depth + 1, diff);
                proof {
                    lemma_tree_view(*self);
                    lemma_tree_view(old(self).children@[i as int]);
                    lemma_tree_view(self.children@[i as int]);
                    assert(self.children@[i as int].name@ == old(self).children@[i as int].name@);
                    assert(names_ordered(self.children@)) by {
                        assert forall|a: int, b: int|
                            #![trigger self.children@[a], self.children@[b]]
                            0 <= a < b < self.children@.len() implies comes_before(
                            self.children@[a].name@,
                            self.children@[b].name@,
                        ) by {
                            assert(comes_before(
                                old(self).children@[a].name@,
                                old(self).children@[b].name@,
                            ));
                        }
                    }
                    let goal = tree_changed(old(self)@, parts, depth as int, diff@);
                    assert(self@.components =~= goal.components);
                    assert(self@.children =~= goal.children);
                    assert(self@ == goal);
                    assert forall|c: int| 0 <= c < self.children@.len() implies paths_lead(
                        #[trigger] self.children@[c],
                        here.push(self.children@[c].name@),
                    ) by {
                        if c != i {
                            assert(paths_lead(
                                old(self).children@[c],
                                here.push(old(self).children@[c].name@),
                            ));
                        }
                    }
                    lemma_paths_lead(*self, here);
                }
            },
            None => {
                if add {
                    let mut child = EntityTree {
                        path: path_prefix(&diff.entity_path, depth + 1),
                        name,
                        components: Vec::new(),
                        children: Vec::new(),
                    };
                    proof {
                        lemma_tree_view(child);
                        lemma_paths_lead(child, parts.take(depth + 1));
                        assert(child@.components =~= Seq::empty());
                        assert(child@.children =~= Seq::empty());
                        assert(child@ == leaf(name@));
                    }
                    child.change(depth + 1, diff);
                    let ghost all = self@.children;
                    let mut at: usize = self.children.len();
                    assert(all.take(at as int) =~= all);
                    while at > 0 && part_before(
                        child.name.as_str(),
                        self.children[at - 1].name.as_str(),
                    )
                        invariant
                            at <= self.children@.len(),
                            all == Seq::new(self.children@.len(), |i: int| self.children@[i]@),
                            child.name@ == name@,
                            child_position(all, name@) == child_position(
                                all.take(at as int),
                                name@,
                            ),
                            forall|k: int|
                                at <= k < self.children@.len() ==> comes_before(
                                    name@,
                                    (#[trigger] self.children@[k]).name@,
                                ),
                        decreases at,
                    {
                        proof {
                            lemma_tree_view(self.children@[at - 1]);
                        }
                        assert(all.take(at as int).drop_last() =~= all.take(at - 1));
                        assert(all[at - 1].name == self.children@[at - 1].name@);
                        at -= 1;
                    }
                    proof {
                        if at > 0 {
                            lemma_tree_view(self.children@[at - 1]);
                            assert(all[at - 1].name == self.children@[at - 1].name@);
                            assert(comes_before(self.children@[at - 1].name@, name@));
                        }
                        lemma_names_ordered(self.children@, child, at as int);
                    }
                    self.children.insert(at, child);
                    proof {
                        lemma_tree_view(*self);
                        let goal = tree_changed(old(self)@, parts, depth as int, diff@);
                        assert(self@.components =~= goal.components);
                        assert(self@.children =~= goal.children);
                        assert(self@ == goal);
                        assert forall|c: int| 0 <= c
                            < self.children@.len() implies paths_lead(
                            #[trigger] self.children@[c],
                            here.push(self.children@[c].name@),
                        ) by {
                            if c != at {
                                let o = if c < at {
                                    c
                                } else {
                                    c - 1
                                };
                                assert(self.children@[c] == old(self).children@[o]);
                                assert(paths_lead(
                                    old(self).children@[o],
                                    here.push(old(self).children@[o].name@),
                                ));
                            }
                        }
                        lemma_paths_lead(*self, here);
                    }
                }
            },
        }
    }

    /// Takes note of events.
    pub fn on_events(&mut self, events: &Vec<StoreEvent>)
        requires
            old(self).wf(),
        ensures
            final(self).wf(),
            final(self)@ == tree_after(old(self)@, event_diffs(events@)),
    {
        let ghost all = event_diffs(events@);
        let mut i: usize = 0;
        while i < events.len()
            invariant
                i <= events@.len(),
                all == event_diffs(events@),
                self.wf(),
                self@ == tree_after(old(self)@, all.take(i as int)),
            decreases events@.len() - i,
        {
            proof {
                assert(all.take(i + 1).drop_last() =~= all.take(i as int));
                assert(all.take(i + 1).last() == events@[i as int].diff@);
                let parts = entity_path_parts(events@[i as int].diff.entity_path);
                assert(parts.take(0) =~= Seq::<Seq<char>>::empty());
            }
            self.change(0, &events[i].diff);
            i += 1;
        }
        assert(all.take(i as int) =~= all);
    }
}

// --- Going through a tree.

/// An entity and the names of its components.
#[derive(Debug)]
pub struct VisitedEntity {
    pub path: EntityPath,
    pub components: Vec<ComponentName>,
}

/// What contracts know of a visited entity.
#[verifier::ext_equal]
pub struct VisitedView {
    pub path: EntityPath,
    pub components: Seq<ComponentName>,
}

impl View for VisitedEntity {
    type V = VisitedView;

    open spec fn view(&self) -> VisitedView {
        VisitedView { path: self.path, components: self.components@ }
    }
}

pub open spec fn visited_views(visited: Seq<VisitedEntity>) -> Seq<VisitedView> {
    Seq::new(visited.len(), |i: int| visited[i]@)
}

/// The names of components.
pub open spec fn info_names(components: Seq<ComponentInfo>) -> Seq<ComponentName> {
    Seq::new(components.len(), |i: int| components[i].name)
}

/// An entity and everything below it, parents before children, children in order.
pub open spec fn listed(tree: EntityTree) -> Seq<VisitedView>
    decreases tree,
{
    seq![VisitedView { path: tree.path, components: info_names(tree.components@) }]
        + listed_children(tree.children@)
}

pub open spec fn listed_children(children: Seq<EntityTree>) -> Seq<VisitedView>
    decreases children,
{
    if children.len() == 0 {
        Seq::empty()
    } else {
        listed_children(children.drop_last()) + listed(children.last())
    }
}

/// Whether entities are in the order of their paths, each of which occurs once.
pub open spec fn visited_in_order(entities: Seq<VisitedView>) -> bool {
    forall|i: int, j: int|
        #![trigger entities[i], entities[j]]
        0 <= i < j < entities.len() ==> path_before(
            entity_path_parts(entities[i].path),
            entity_path_parts(entities[j].path),
        )
}

/// Whether the paths of entities all begin in the same way.
pub open spec fn all_below(entities: Seq<VisitedView>, parts: Seq<Seq<char>>) -> bool {
    forall|i: int|
        0 <= i < entities.len() ==> lies_under(entity_path_parts((#[trigger] entities[i]).path), parts)
}

proof fn lemma_shorter_first(prefix: Seq<Seq<char>>, parts: Seq<Seq<char>>)
    requires
        lies_under(parts, prefix),
        prefix.len() < parts.len(),
    ensures
        path_before(prefix, parts),
{
    let rest = parts.skip(prefix.len() as int);
    crate::path::lemma_common_parts(prefix, Seq::empty(), rest);
    assert(prefix + Seq::<Seq<char>>::empty() =~= prefix);
    assert(prefix + rest =~= parts);
}

proof fn lemma_siblings_in_order(
    prefix: Seq<Seq<char>>,
    a_name: Seq<char>,
    b_name: Seq<char>,
    a: Seq<Seq<char>>,
    b: Seq<Seq<char>>,
)
    requires
        lies_under(a, prefix.push(a_name)),
        lies_under(b, prefix.push(b_name)),
        comes_before(a_name, b_name),
    ensures
        path_before(a, b),
{
    let n = prefix.len() as int;
    let a_rest = a.skip(n);
    let b_rest = b.skip(n);
    crate::path::lemma_common_parts(prefix, a_rest, b_rest);
    assert(a.take(n + 1)[n] == a_name);
    assert(b.take(n + 1)[n] == b_name);
    assert(prefix + a_rest =~= a) by {
        assert(a.take(n) =~= a.take(n + 1).take(n));
        assert(prefix =~= prefix.push(a_name).take(n));
    }
    assert(prefix + b_rest =~= b) by {
        assert(b.take(n) =~= b.take(n + 1).take(n));
        assert(prefix =~= prefix.push(b_name).take(n));
    }
}

/// An entity and everything below it come in the order of their paths.
pub proof fn lemma_listed_in_order(tree: EntityTree, parts: Seq<Seq<char>>)
    requires
        paths_lead(tree, parts),
    ensures
        visited_in_order(listed(tree)),
        all_below(listed(tree), parts),
        listed(tree).len() > 0,
    decreases tree,
{
    lemma_paths_lead(tree, parts);
    assert(tree.children@.take(tree.children@.len() as int) =~= tree.children@);
    lemma_listed_children_in_order(tree, parts, tree.children@);
    let below = listed_children(tree.children@);
    let all = listed(tree);
    assert forall|i: int| 0 <= i < all.len() implies lies_under(
        entity_path_parts((#[trigger] all[i]).path),
        parts,
    ) by {
        if i > 0 {
            assert(all[i] == below[i - 1]);
            assert(lies_under(entity_path_parts(below[i - 1].path), parts));
        } else {
            assert(parts.take(parts.len() as int) =~= parts);
        }
    }
    assert forall|i: int, j: int|
        #![trigger all[i], all[j]]
        0 <= i < j < all.len() implies path_before(
        entity_path_parts(all[i].path),
        entity_path_parts(all[j].path),
    ) by {
        assert(all[j] == below[j - 1]);
        if i > 0 {
            assert(all[i] == below[i - 1]);
        } else {
            assert(lies_under(entity_path_parts(below[j - 1].path), parts));
            lemma_shorter_first(parts, entity_path_parts(below[j - 1].path));
        }
    }
}

proof fn lemma_listed_children_in_order(
    tree: EntityTree,
    parts: Seq<Seq<char>>,
    children: Seq<EntityTree>,
)
    requires
        paths_lead(tree, parts),
        children.len() <= tree.children@.len(),
        children == tree.children@.take(children.len() as int),
    ensures
        visited_in_order(listed_children(children)),
        all_below(listed_children(children), parts),
        forall|k: int|
            0 <= k < listed_children(children).len() ==> entity_path_parts(
                (#[trigger] listed_children(children)[k]).path,
            ).len() > parts.len(),
        forall|k: int|
            0 <= k < listed_children(children).len() ==> exists|c: int|
                0 <= c < children.len() && lies_under(
                    entity_path_parts((#[trigger] listed_children(children)[k]).path),
                    parts.push((#[trigger] children[c]).name@),
                ),
    decreases tree, children.len(),
{
    if children.len() > 0 {
        let init = children.drop_last();
        let n = init.len() as int;
        let last = children.last();
        lemma_paths_lead(tree, parts);
        assert(init =~= tree.children@.take(n));
        lemma_listed_children_in_order(tree, parts, init);
        assert(last == tree.children@[n]);
        let here = parts.push(last.name@);
        assert(paths_lead(tree.children@[n], here));
        lemma_listed_in_order(last, here);
        let before = listed_children(init);
        let own = listed(last);
        let all = listed_children(children);
        assert(all =~= before + own);
        assert forall|k: int| 0 <= k < own.len() implies {
            let path = entity_path_parts((#[trigger] own[k]).path);
            lies_under(path, here) && lies_under(path, parts) && path.len() > parts.len()
        } by {
            let path = entity_path_parts(own[k].path);
            assert(lies_under(path, here));
            assert(path.take(parts.len() as int) =~= here.take(parts.len() as int)) by {
                assert(path.take(here.len() as int) == here);
            }
            assert(here.take(parts.len() as int) =~= parts);
        }
        assert forall|k: int| 0 <= k < all.len() implies {
            let path = entity_path_parts((#[trigger] all[k]).path);
            &&& lies_under(path, parts)
            &&& path.len() > parts.len()
            &&& exists|c: int|
                0 <= c < children.len() && lies_under(path, parts.push((#[trigger] children[c]).name@))
        } by {
            let path = entity_path_parts(all[k].path);
            if k < before.len() {
                assert(all[k] == before[k]);
                let c = choose|c: int|
                    0 <= c < init.len() && lies_under(
                        entity_path_parts(before[k].path),
                        parts.push((#[trigger] init[c]).name@),
                    );
                assert(children[c] == init[c]);
            } else {
                assert(all[k] == own[k - before.len()]);
                assert(lies_under(path, parts.push(children[n].name@)));
            }
        }
        assert forall|i: int, j: int|
            #![trigger all[i], all[j]]
            0 <= i < j < all.len() implies path_before(
            entity_path_parts(all[i].path),
            entity_path_parts(all[j].path),
        ) by {
            if j < before.len() {
                assert(all[i] == before[i] && all[j] == before[j]);
            } else if i >= before.len() {
                assert(all[i] == own[i - before.len()] && all[j] == own[j - before.len()]);
            } else {
                assert(all[i] == before[i] && all[j] == own[j - before.len()]);
                let c = choose|c: int|
                    0 <= c < init.len() && lies_under(
                        entity_path_parts(before[i].path),
                        parts.push((#[trigger] init[c]).name@),
                    );
                assert(init[c] == tree.children@[c]);
                assert(comes_before(tree.children@[c].name@, tree.children@[n].name@));
                lemma_siblings_in_order(
                    parts,
                    init[c].name@,
                    last.name@,
                    entity_path_parts(all[i].path),
                    entity_path_parts(all[j].path),
                );
            }
        }
    }
}

/// How many static cells were logged to an entity.
pub open spec fn static_cells(components: Seq<ComponentInfo>) -> int
    decreases components.len(),
{
    if components.len() == 0 {
        0
    } else {
        count_changed(
            static_cells(components.drop_last()),
            true,
            components.last().num_static as int,
        )
    }
}

/// How many static cells were logged to an entity or anything below it.
pub open spec fn static_cells_below(tree: EntityTree) -> int
    decreases tree,
{
    count_changed(static_cells(tree.components@), true, static_cells_of_children(tree.children@))
}

pub open spec fn static_cells_of_children(children: Seq<EntityTree>) -> int
    decreases children,
{
    if children.len() == 0 {
        0
    } else {
        count_changed(
            static_cells_of_children(children.drop_last()),
            true,
            static_cells_below(children.last()),
        )
    }
}

/// The sum, as far as one can count.
fn count_sum(a: u64, b: u64) -> (r: u64)
    ensures
        r == count_changed(a as int, true, b as int),
{
    match a.checked_add(b) {
        Some(sum) => sum,
        None => u64::MAX,
    }
}

impl EntityTree {
    fn component_names(&self) -> (r: Vec<ComponentName>)
        ensures
            r@ == info_names(self.components@),
    {
        let mut names: Vec<ComponentName> = Vec::new();
        let mut i: usize = 0;
        while i < self.components.len()
            invariant
                i <= self.components@.len(),
                names@ == info_names(self.components@.take(i as int)),
            decreases self.components@.len() - i,
        {
            names.push(self.components[i].name);
            i += 1;
            assert(names@ =~= info_names(self.components@.take(i as int)));
        }
        assert(self.components@.take(i as int) =~= self.components@);
        names
    }

    /// Goes through this entity and everything below it, parents before children.
    pub fn visit_children_recursively(&self) -> (r: Vec<VisitedEntity>)
        ensures
            visited_views(r@) == listed(*self),
        decreases *self,
    {
        let mut out: Vec<VisitedEntity> = Vec::new();
        out.push(VisitedEntity { path: clone_path(&self.path), components: self.component_names() });
        let ghost first = visited_views(out@);
        assert(first =~= seq![
            VisitedView { path: self.path, components: info_names(self.components@) },
        ]);
        let mut i: usize = 0;
        assert(visited_views(out@) =~= first + listed_children(self.children@.take(0)));
        while i < self.children.len()
            invariant
                i <= self.children@.len(),
                visited_views(out@) == first + listed_children(self.children@.take(i as int)),
            decreases self.children@.len() - i,
        {
            let ghost before = out@;
            let mut more = self.children[i].visit_children_recursively();
            let ghost added = more@;
            out.append(&mut more);
            proof {
                assert(self.children@.take(i + 1).drop_last() =~= self.children@.take(i as int));
                assert(self.children@.take(i + 1).last() == self.children@[i as int]);
                assert(visited_views(out@) =~= visited_views(before) + visited_views(added));
                assert(visited_views(out@) =~= first + listed_children(
                    self.children@.take(i + 1),
                ));
            }
            i += 1;
        }
        assert(self.children@.take(i as int) =~= self.children@);
        out
    }

    /// How many static cells were logged to this entity or anything below it.
    pub fn num_static_messages_recursive(&self) -> (r: u64)
        ensures
            r == static_cells_below(*self),
        decreases *self,
    {
        let mut here: u64 = 0;
        let mut c: usize = 0;
        while c < self.components.len()
            invariant
                c <= self.components@.len(),
                here == static_cells(self.components@.take(c as int)),
            decreases self.components@.len() - c,
        {
            assert(self.components@.take(c + 1).drop_last() =~= self.components@.take(c as int));
            here = count_sum(here, self.components[c].num_static);
            c += 1;
        }
        assert(self.components@.take(c as int) =~= self.components@);
        let mut below: u64 = 0;
        let mut i: usize = 0;
        while i < self.children.len()
            invariant
                i <= self.children@.len(),
                below == static_cells_of_children(self.children@.take(i as int)),
            decreases self.children@.len() - i,
        {
            assert(self.children@.take(i + 1).drop_last() =~= self.children@.take(i as int));
            assert(self.children@.take(i + 1).last() == self.children@[i as int]);
            below = count_sum(below, self.children[i].num_static_messages_recursive());
            i += 1;
        }
        assert(self.children@.take(i as int) =~= self.children@);
        count_sum(here, below)
    }
}

} // verus!

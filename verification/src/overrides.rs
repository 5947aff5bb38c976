//! How the blueprint changes the way in which the entities of a view are shown.
use crate::archetypes::VisibleTimeRanges;
use crate::classes::SpaceViewClassRegistry;
use crate::components::visualizer_overrides_name;
use crate::contents::{property_parts, SpaceViewContents};
use crate::data_result::{
    from_blueprint, handle_list, handles_of, new_system_list, node_at_handle, node_at_handle_mut,
    node_map, push_system, system_list, systems_of, DataResultHandle, DataResultNode, OverrideMap,
    OverridePath, OverrideView, OverridesView, PropertyOverrides, QueryRange, ResultView,
    SystemList,
};
use crate::entity_db::{latest_mono, EntityDb};
use crate::names::{Timeline, ViewSystemIdentifier};
use crate::path::{
    clone_path, entity_path_hash, entity_path_parts, hash_of, join_path, same_path, settled_hash,
    single_part_path,
};
use crate::query::{
    agree_on, all_apart, all_linked, all_results, all_results_listed, apart, handles, handles_below,
    lemma_same_nodes, lemma_same_nodes_below, linked, results_at, results_listed, tops, DataQueryResult,
    DataResultTree, HandleTree, PerVisualizer, ResultTree,
};
use crate::row::{CellValue, EntityProperties};
use crate::space_view::{
    find_properties, individual_overrides, properties_at, range_in, range_or, time_range_at,
    SpaceViewBlueprint,
};
use crate::store::{latest_entry, LatestAtQuery, StoreView};
use crate::tree::{subtree_at, ComponentInfo, TreeView};
use re_log_types::EntityPath;
use vstd::prelude::*;

verus! {

/// Properties that the system came up with for some entities.
pub struct EntityPropertyMap {
    pub props: Vec<(EntityPath, EntityProperties)>,
}

/// Whether no entity has properties twice.
pub open spec fn entities_differ(props: Seq<(EntityPath, EntityProperties)>) -> bool {
    forall|i: int, j: int|
        #![trigger props[i], props[j]]
        0 <= i < j < props.len() ==> entity_path_hash(props[i].0) != entity_path_hash(props[j].0)
}

/// The properties for an entity; the usual ones if there are none.
pub open spec fn auto_properties(props: Seq<(EntityPath, EntityProperties)>, hash: u64)
    -> EntityProperties
    decreases props.len(),
{
    if props.len() == 0 {
        EntityProperties::default_spec()
    } else if entity_path_hash(props[0].0) == hash {
        props[0].1
    } else {
        auto_properties(props.skip(1), hash)
    }
}

impl EntityPropertyMap {
    pub open spec fn wf(self) -> bool {
        entities_differ(self.props@)
    }

    /// No properties for any entity.
    pub fn new() -> (r: EntityPropertyMap)
        ensures
            r.wf(),
            r.props@.len() == 0,
    {
        EntityPropertyMap { props: Vec::new() }
    }

    /// Sets the properties for an entity.
    pub fn insert(&mut self, entity_path: EntityPath, properties: EntityProperties)
        requires
            old(self).wf(),
        ensures
            final(self).wf(),
            forall|hash: u64| #[trigger]
                auto_properties(final(self).props@, hash) == if hash == entity_path_hash(
                    entity_path,
                ) {
                    properties
                } else {
                    auto_properties(old(self).props@, hash)
                },
    {
        let ghost before = self.props@;
        let ghost new = (entity_path, properties);
        let ghost own = entity_path_hash(entity_path);
        let mut i: usize = 0;
        while i < self.props.len()
            invariant
                i <= self.props@.len(),
                self.props@ == before,
                before == old(self).props@,
                new == (entity_path, properties),
                own == entity_path_hash(entity_path),
                entities_differ(before),
                forall|j: int| 0 <= j < i ==> entity_path_hash((#[trigger] before[j]).0) != own,
            decreases self.props@.len() - i,
        {
            if same_path(&self.props[i].0, &entity_path) {
                self.props.set(i, (entity_path, properties));
                proof {
                    lemma_properties_set(before, i as int, new);
                }
                return;
            }
            i += 1;
        }
        self.props.push((entity_path, properties));
        proof {
            lemma_properties_pushed(before, new);
        }
    }

    /// The properties for an entity; the usual ones if there are none.
    pub fn get(&self, entity_path: &EntityPath) -> (r: EntityProperties)
        requires
            self.wf(),
        ensures
            r == auto_properties(self.props@, entity_path_hash(*entity_path)),
    {
        let ghost hash = entity_path_hash(*entity_path);
        let mut i: usize = 0;
        assert(self.props@.skip(0) =~= self.props@);
        while i < self.props.len()
            invariant
                i <= self.props@.len(),
                hash == entity_path_hash(*entity_path),
                auto_properties(self.props@, hash) == auto_properties(
                    self.props@.skip(i as int),
                    hash,
                ),
            decreases self.props@.len() - i,
        {
            assert(self.props@.skip(i as int).skip(1) =~= self.props@.skip(i + 1));
            if same_path(&self.props[i].0, entity_path) {
                return self.props[i].1;
            }
            i += 1;
        }
        EntityProperties::default()
    }
}

proof fn lemma_properties_set(
    props: Seq<(EntityPath, EntityProperties)>,
    i: int,
    new: (EntityPath, EntityProperties),
)
    requires
        entities_differ(props),
        0 <= i < props.len(),
        entity_path_hash(props[i].0) == entity_path_hash(new.0),
    ensures
        entities_differ(props.update(i, new)),
        forall|hash: u64| #[trigger]
            auto_properties(props.update(i, new), hash) == if hash == entity_path_hash(new.0) {
                new.1
            } else {
                auto_properties(props, hash)
            },
    decreases i,
{
    let out = props.update(i, new);
    assert forall|a: int, b: int|
        #![trigger out[a], out[b]]
        0 <= a < b < out.len() implies entity_path_hash(out[a].0) != entity_path_hash(out[b].0) by {
        assert(entity_path_hash(props[a].0) != entity_path_hash(props[b].0));
    }
    let rest = props.skip(1);
    if i == 0 {
        assert(out.skip(1) =~= rest);
    } else {
        assert forall|a: int, b: int|
            #![trigger rest[a], rest[b]]
            0 <= a < b < rest.len() implies entity_path_hash(rest[a].0) != entity_path_hash(
            rest[b].0,
        ) by {
            assert(entity_path_hash(props[a + 1].0) != entity_path_hash(props[b + 1].0));
        }
        lemma_properties_set(rest, i - 1, new);
        assert(out.skip(1) =~= rest.update(i - 1, new));
        assert(entity_path_hash(props[0].0) != entity_path_hash(props[i].0));
    }
    assert forall|hash: u64| #[trigger]
        auto_properties(out, hash) == if hash == entity_path_hash(new.0) {
            new.1
        } else {
            auto_properties(props, hash)
        } by {
        assert(out[0] == if i == 0 {
            new
        } else {
            props[0]
        });
        if i > 0 {
            assert(auto_properties(rest.update(i - 1, new), hash) == if hash == entity_path_hash(
                new.0,
            ) {
                new.1
            } else {
                auto_properties(rest, hash)
            });
        }
    }
}

proof fn lemma_properties_pushed(
    props: Seq<(EntityPath, EntityProperties)>,
    new: (EntityPath, EntityProperties),
)
    requires
        entities_differ(props),
        forall|j: int|
            0 <= j < props.len() ==> entity_path_hash((#[trigger] props[j]).0) != entity_path_hash(
                new.0,
            ),
    ensures
        entities_differ(props.push(new)),
        forall|hash: u64| #[trigger]
            auto_properties(props.push(new), hash) == if hash == entity_path_hash(new.0) {
                new.1
            } else {
                auto_properties(props, hash)
            },
    decreases props.len(),
{
    let out = props.push(new);
    assert forall|a: int, b: int|
        #![trigger out[a], out[b]]
        0 <= a < b < out.len() implies entity_path_hash(out[a].0) != entity_path_hash(out[b].0) by {
        if b < props.len() {
            assert(entity_path_hash(props[a].0) != entity_path_hash(props[b].0));
        } else {
            assert(entity_path_hash(props[a].0) != entity_path_hash(new.0));
        }
    }
    if props.len() == 0 {
        assert(out.skip(1) =~= Seq::empty());
        reveal_with_fuel(auto_properties, 2);
    } else {
        let rest = props.skip(1);
        assert forall|a: int, b: int|
            #![trigger rest[a], rest[b]]
            0 <= a < b < rest.len() implies entity_path_hash(rest[a].0) != entity_path_hash(
            rest[b].0,
        ) by {
            assert(entity_path_hash(props[a + 1].0) != entity_path_hash(props[b + 1].0));
        }
        assert forall|j: int| 0 <= j < rest.len() implies entity_path_hash(
            (#[trigger] rest[j]).0,
        ) != entity_path_hash(new.0) by {
            assert(entity_path_hash(props[j + 1].0) != entity_path_hash(new.0));
        }
        lemma_properties_pushed(rest, new);
        assert(out.skip(1) =~= rest.push(new));
        assert(out[0] == props[0]);
        assert forall|hash: u64| #[trigger]
            auto_properties(out, hash) == if hash == entity_path_hash(new.0) {
                new.1
            } else {
                auto_properties(props, hash)
            } by {
            assert(entity_path_hash(props[0].0) != entity_path_hash(new.0));
            assert(auto_properties(rest.push(new), hash) == if hash == entity_path_hash(new.0) {
                new.1
            } else {
                auto_properties(rest, hash)
            });
        }
    }
}

/// What holds for all entities of a view, whatever is overridden.
pub struct EntityOverrideContext<'a> {
    pub legacy_space_view_properties: EntityProperties,
    pub default_query_range: QueryRange,
    pub legacy_auto_properties: &'a EntityPropertyMap,
}

/// Works out what is overridden for the entities of a view.
pub struct DataQueryPropertyResolver<'a> {
    pub space_view_class_registry: &'a SpaceViewClassRegistry,
    pub space_view: &'a SpaceViewBlueprint,
    /// Where overrides for single entities are kept.
    pub individual_override_root: EntityPath,
    /// Where overrides for entities and everything below them are kept.
    pub recursive_override_root: EntityPath,
    pub visualizable_entities_per_visualizer: &'a PerVisualizer,
    pub indicated_entities_per_visualizer: &'a PerVisualizer,
}

/// Where the overrides for entities and everything below them are kept.
pub open spec fn recursive_overrides() -> Seq<char> {
    "recursive_overrides"@
}

impl SpaceViewContents {
    /// What works out overrides for a view with these contents.
    pub fn build_resolver<'a>(
        &self,
        space_view_class_registry: &'a SpaceViewClassRegistry,
        space_view: &'a SpaceViewBlueprint,
        visualizable_entities_per_visualizer: &'a PerVisualizer,
        indicated_entities_per_visualizer: &'a PerVisualizer,
    ) -> (r: DataQueryPropertyResolver<'a>)
        ensures
            *r.space_view_class_registry == *space_view_class_registry,
            *r.space_view == *space_view,
            entity_path_parts(r.individual_override_root) == entity_path_parts(
                self.blueprint_entity_path,
            ).push(individual_overrides()),
            entity_path_parts(r.recursive_override_root) == entity_path_parts(
                self.blueprint_entity_path,
            ).push(recursive_overrides()),
            *r.visualizable_entities_per_visualizer == *visualizable_entities_per_visualizer,
            *r.indicated_entities_per_visualizer == *indicated_entities_per_visualizer,
    {
        let base = &self.blueprint_entity_path;
        let individual_override_root = join_path(base, &single_part_path("individual_overrides"));
        let recursive_override_root = join_path(base, &single_part_path("recursive_overrides"));
        assert(entity_path_parts(individual_override_root) =~= entity_path_parts(*base).push(
            individual_overrides(),
        ));
        assert(entity_path_parts(recursive_override_root) =~= entity_path_parts(*base).push(
            recursive_overrides(),
        ));
        DataQueryPropertyResolver {
            space_view_class_registry,
            space_view,
            individual_override_root,
            recursive_override_root,
            visualizable_entities_per_visualizer,
            indicated_entities_per_visualizer,
        }
    }
}

// --- What is overridden.

/// All that overrides follow from.
pub struct OverrideSources {
    pub store: StoreView,
    pub tree: TreeView,
    pub query: LatestAtQuery,
    pub timeline: Seq<char>,
    pub individual_root: Seq<Seq<char>>,
    pub recursive_root: Seq<Seq<char>>,
    pub default_query_range: QueryRange,
    pub auto_properties: Seq<(EntityPath, EntityProperties)>,
    /// What shows an entity unless told otherwise.
    pub chosen_visualizers: spec_fn(EntityPath) -> Seq<ViewSystemIdentifier>,
}

impl OverrideSources {
    /// Where overrides for a single entity are kept.
    pub open spec fn individual_path(self, path: EntityPath) -> Seq<Seq<char>> {
        self.individual_root + entity_path_parts(path)
    }

    /// Where overrides for an entity and everything below it are kept.
    pub open spec fn recursive_path(self, path: EntityPath) -> Seq<Seq<char>> {
        self.recursive_root + entity_path_parts(path)
    }

    pub open spec fn properties_at(self, parts: Seq<Seq<char>>) -> Option<EntityProperties> {
        properties_at(self.store, self.query, hash_of(parts))
    }

    /// Whether a component of an entity in the blueprint has any instances.
    pub open spec fn is_set(self, parts: Seq<Seq<char>>, component: Seq<char>) -> bool {
        match latest_entry(self.store, self.query, hash_of(parts), component) {
            Some(entry) => entry.cell.num_instances > 0,
            None => false,
        }
    }

    /// The components of an entity in the blueprint.
    pub open spec fn components_at(self, parts: Seq<Seq<char>>) -> Seq<ComponentInfo> {
        match subtree_at(self.tree, parts, 0) {
            Some(node) => node.components,
            None => Seq::empty(),
        }
    }

    /// The visualizers that are named for an entity, if there are any.
    pub open spec fn named_visualizers(self, parts: Seq<Seq<char>>) -> Option<
        Seq<ViewSystemIdentifier>,
    > {
        named_visualizers_at(self.store, self.query, hash_of(parts))
    }
}

/// The visualizers that an entity in the blueprint names, if it names any.
pub open spec fn named_visualizers_at(store: StoreView, query: LatestAtQuery, hash: u64) -> Option<
    Seq<ViewSystemIdentifier>,
> {
    match latest_mono(store, query, hash, "rerun.components.VisualizerOverrides"@) {
        Some(entry) => match *entry.cell.value {
            CellValue::VisualizerOverrides(systems) => Some(systems@),
            _ => None,
        },
        None => None,
    }
}

/// Some overrides, and on top of them those of the given components that are set at an entity in the
/// blueprint.
pub open spec fn with_components(
    sources: OverrideSources,
    overrides: Map<Seq<char>, OverrideView>,
    components: Seq<ComponentInfo>,
    parts: Seq<Seq<char>>,
) -> Map<Seq<char>, OverrideView>
    decreases components.len(),
{
    if components.len() == 0 {
        overrides
    } else {
        let rest = with_components(sources, overrides, components.drop_last(), parts);
        let component = components.last().name@;
        if sources.is_set(parts, component) {
            rest.insert(component, from_blueprint(parts))
        } else {
            rest
        }
    }
}

/// Some overrides, and on top of them what an entity in the blueprint says.
pub open spec fn with_overrides_at(
    sources: OverrideSources,
    overrides: Map<Seq<char>, OverrideView>,
    parts: Seq<Seq<char>>,
) -> Map<Seq<char>, OverrideView> {
    with_components(sources, overrides, sources.components_at(parts), parts)
}

/// What an entity hands on to everything below it: the properties.
pub open spec fn inherited_properties(
    sources: OverrideSources,
    path: EntityPath,
    properties: EntityProperties,
) -> EntityProperties {
    match sources.properties_at(sources.recursive_path(path)) {
        Some(own) => properties.with_child_spec(own),
        None => properties,
    }
}

/// What an entity hands on to everything below it: where overridden components come from.
pub open spec fn inherited_overrides(
    sources: OverrideSources,
    path: EntityPath,
    overrides: Map<Seq<char>, OverrideView>,
) -> Map<Seq<char>, OverrideView> {
    with_overrides_at(sources, overrides, sources.recursive_path(path))
}

/// All properties of an entity taken together.
pub open spec fn accumulated_properties(
    sources: OverrideSources,
    path: EntityPath,
    properties: EntityProperties,
) -> EntityProperties {
    let inherited = inherited_properties(sources, path, properties);
    let auto = auto_properties(sources.auto_properties, entity_path_hash(path));
    match sources.properties_at(sources.individual_path(path)) {
        Some(own) => inherited.with_child_spec(own).with_child_spec(auto),
        None => inherited.with_child_spec(auto),
    }
}

/// What shows an entity: nothing if nothing could anyway, else what is named for it, else what the
/// class of the view chooses.
pub open spec fn overridden_visualizers(sources: OverrideSources, result: ResultView) -> Seq<
    ViewSystemIdentifier,
> {
    if result.visualizers.len() == 0 {
        result.visualizers
    } else {
        match sources.named_visualizers(sources.individual_path(result.path)) {
            Some(systems) => systems,
            None => (sources.chosen_visualizers)(result.path),
        }
    }
}

/// A result with everything that is overridden for it, given what comes from above.
pub open spec fn overridden(
    sources: OverrideSources,
    result: ResultView,
    properties: EntityProperties,
    overrides: Map<Seq<char>, OverrideView>,
) -> ResultView {
    let individual = sources.individual_path(result.path);
    let recursive = sources.recursive_path(result.path);
    ResultView {
        visualizers: overridden_visualizers(sources, result),
        overrides: Some(
            OverridesView {
                accumulated_properties: accumulated_properties(sources, result.path, properties),
                individual_properties: sources.properties_at(individual),
                recursive_properties: sources.properties_at(recursive),
                components: with_overrides_at(
                    sources,
                    inherited_overrides(sources, result.path, overrides),
                    individual,
                ),
                recursive_override_path: recursive,
                individual_override_path: individual,
                query_range: range_or(
                    time_range_at(
                        sources.store,
                        sources.query,
                        hash_of(recursive),
                        sources.timeline,
                    ),
                    sources.default_query_range,
                ),
            },
        ),
        ..result
    }
}

/// Results with everything that is overridden for them, given what comes from above.
pub open spec fn overridden_tree(
    sources: OverrideSources,
    tree: ResultTree,
    properties: EntityProperties,
    overrides: Map<Seq<char>, OverrideView>,
) -> ResultTree
    decreases tree,
{
    ResultTree {
        result: overridden(sources, tree.result, properties, overrides),
        children: overridden_trees(
            sources,
            tree.children,
            inherited_properties(sources, tree.result.path, properties),
            inherited_overrides(sources, tree.result.path, overrides),
        ),
    }
}

pub open spec fn overridden_trees(
    sources: OverrideSources,
    trees: Seq<ResultTree>,
    properties: EntityProperties,
    overrides: Map<Seq<char>, OverrideView>,
) -> Seq<ResultTree>
    decreases trees,
{
    if trees.len() == 0 {
        Seq::empty()
    } else {
        overridden_trees(sources, trees.drop_last(), properties, overrides).push(
            overridden_tree(sources, trees.last(), properties, overrides),
        )
    }
}

// --- Working it out.

impl<'a> DataQueryPropertyResolver<'a> {
    /// All that overrides follow from.
    pub open spec fn sources(
        self,
        blueprint: EntityDb,
        query: LatestAtQuery,
        timeline: Timeline,
        default_query_range: QueryRange,
        auto_properties: Seq<(EntityPath, EntityProperties)>,
    ) -> OverrideSources {
        OverrideSources {
            store: blueprint@.store,
            tree: blueprint@.tree,
            query,
            timeline: timeline.name@,
            individual_root: entity_path_parts(self.individual_override_root),
            recursive_root: entity_path_parts(self.recursive_override_root),
            default_query_range,
            auto_properties,
            chosen_visualizers: |path: EntityPath| self.chosen_by_class(path),
        }
    }

    /// What shows an entity as far as the class of the view is concerned.
    pub open spec fn chosen_by_class(self, path: EntityPath) -> Seq<ViewSystemIdentifier> {
        self.space_view_class_registry.class_of(
            self.space_view.class_identifier@,
        ).chosen_visualizers(
            path,
            self.visualizable_entities_per_visualizer.entries@,
            self.indicated_entities_per_visualizer.entries@,
        )
    }

    /// What holds for all entities of the view.
    pub fn build_override_context<'b>(
        &self,
        blueprint: &EntityDb,
        blueprint_query: &LatestAtQuery,
        active_timeline: &Timeline,
        space_view_class_registry: &SpaceViewClassRegistry,
        legacy_auto_properties: &'b EntityPropertyMap,
    ) -> (r: EntityOverrideContext<'b>)
        requires
            blueprint.wf(),
        ensures
            r.legacy_space_view_properties == match properties_at(
                blueprint@.store,
                *blueprint_query,
                hash_of(property_parts(self.space_view.id, individual_overrides())),
            ) {
                Some(properties) => properties,
                None => EntityProperties::default_spec(),
            },
            r.default_query_range == view_query_range(
                *self.space_view,
                *blueprint,
                *blueprint_query,
                *active_timeline,
                *space_view_class_registry,
            ),
            *r.legacy_auto_properties == *legacy_auto_properties,
    {
        EntityOverrideContext {
            legacy_space_view_properties: self.space_view.legacy_properties(
                blueprint,
                blueprint_query,
            ),
            default_query_range: self.space_view.query_range(
                blueprint,
                blueprint_query,
                active_timeline,
                space_view_class_registry,
            ),
            legacy_auto_properties,
        }
    }

    /// What shows an entity.
    fn update_visualizers(
        &self,
        blueprint: &EntityDb,
        blueprint_query: &LatestAtQuery,
        individual_override_path: &EntityPath,
        entity_path: &EntityPath,
    ) -> (r: SystemList)
        requires
            blueprint.wf(),
        ensures
            system_list(r) == match named_visualizers_at(
                blueprint@.store,
                *blueprint_query,
                hash_of(entity_path_parts(*individual_override_path)),
            ) {
                Some(systems) => systems,
                None => self.chosen_by_class(*entity_path),
            },
    {
        settled_hash(individual_override_path);
        if let Some((_, _, cell)) = blueprint.latest_at_component(
            individual_override_path,
            blueprint_query,
            &visualizer_overrides_name(),
        ) {
            if let CellValue::VisualizerOverrides(systems) = &*cell.value {
                let mut list = new_system_list();
                let mut i: usize = 0;
                while i < systems.len()
                    invariant
                        i <= systems@.len(),
                        system_list(list) == systems@.take(i as int),
                    decreases systems@.len() - i,
                {
                    push_system(&mut list, systems[i]);
                    i += 1;
                    assert(systems@.take(i as int) =~= systems@.take(i - 1).push(systems@[i - 1]));
                }
                assert(systems@.take(i as int) =~= systems@);
                return list;
            }
        }
        self.space_view.class(self.space_view_class_registry).choose_default_visualizers(
            entity_path,
            self.visualizable_entities_per_visualizer,
            self.indicated_entities_per_visualizer,
        )
    }
}

/// Which part of a timeline a view shows.
pub open spec fn view_query_range(
    space_view: SpaceViewBlueprint,
    blueprint: EntityDb,
    query: LatestAtQuery,
    timeline: Timeline,
    registry: SpaceViewClassRegistry,
) -> QueryRange {
    range_or(
        time_range_at(
            blueprint@.store,
            query,
            hash_of(property_parts(space_view.id, "VisibleTimeRanges"@)),
            timeline.name@,
        ),
        registry.class_of(space_view.class_identifier@).default_query_range,
    )
}

/// Overrides components by what an entity in the blueprint says.
fn add_overrides_at(
    blueprint: &EntityDb,
    blueprint_query: &LatestAtQuery,
    path: &EntityPath,
    overrides: &mut OverrideMap,
    Ghost(sources): Ghost<OverrideSources>,
)
    requires
        blueprint.wf(),
        sources.store == blueprint@.store,
        sources.tree == blueprint@.tree,
        sources.query == *blueprint_query,
        old(overrides).wf(),
    ensures
        final(overrides).wf(),
        final(overrides)@ == with_overrides_at(
            sources,
            old(overrides)@,
            entity_path_parts(*path),
        ),
{
    let ghost parts = entity_path_parts(*path);
    settled_hash(path);
    if let Some(node) = blueprint.tree().subtree(path) {
        proof {
            crate::tree::lemma_tree_view(*node);
        }
        let components = &node.components;
        let mut i: usize = 0;
        assert(components@.take(0) =~= Seq::empty());
        while i < components.len()
            invariant
                i <= components@.len(),
                blueprint.wf(),
                sources.store == blueprint@.store,
                sources.query == *blueprint_query,
                parts == entity_path_parts(*path),
                entity_path_hash(*path) == hash_of(parts),
                overrides.wf(),
                overrides@ == with_components(
                    sources,
                    old(overrides)@,
                    components@.take(i as int),
                    parts,
                ),
            decreases components@.len() - i,
        {
            assert(components@.take(i + 1).drop_last() =~= components@.take(i as int));
            let name = components[i].name;
            if let Some((_, _, cell)) = blueprint.store().latest_at(blueprint_query, path, &name) {
                if !cell.is_empty() {
                    overrides.insert(name, OverridePath::blueprint_path(clone_path(path)));
                }
            }
            i += 1;
        }
        assert(components@.take(i as int) =~= components@);
    }
}

impl<'a> DataQueryPropertyResolver<'a> {
    /// Works out what is overridden for one entity. Returns what it hands on to those below it.
    fn update_node(
        &self,
        blueprint: &EntityDb,
        blueprint_query: &LatestAtQuery,
        active_timeline: &Timeline,
        node: &mut DataResultNode,
        override_context: &EntityOverrideContext<'_>,
        properties: &EntityProperties,
        overrides: &OverrideMap,
    ) -> (r: (EntityProperties, OverrideMap))
        requires
            blueprint.wf(),
            overrides.wf(),
            override_context.legacy_auto_properties.wf(),
        ensures
            ({
                let sources = self.sources(
                    *blueprint,
                    *blueprint_query,
                    *active_timeline,
                    override_context.default_query_range,
                    override_context.legacy_auto_properties.props@,
                );
                let path = old(node).data_result.entity_path;
                &&& final(node).children == old(node).children
                &&& final(node).data_result@ == overridden(
                    sources,
                    old(node).data_result@,
                    *properties,
                    overrides@,
                )
                &&& r.0 == inherited_properties(sources, path, *properties)
                &&& r.1@ == inherited_overrides(sources, path, overrides@)
                &&& r.1.wf()
            }),
    {
        let ghost sources = self.sources(
            *blueprint,
            *blueprint_query,
            *active_timeline,
            override_context.default_query_range,
            override_context.legacy_auto_properties.props@,
        );
        let ghost before = node.data_result@;
        let individual_override_path = join_path(
            &self.individual_override_root,
            &node.data_result.entity_path,
        );
        let recursive_override_path = join_path(
            &self.recursive_override_root,
            &node.data_result.entity_path,
        );
        let recursive_properties = find_properties(
            blueprint,
            blueprint_query,
            &recursive_override_path,
        );
        let individual_properties = find_properties(
            blueprint,
            blueprint_query,
            &individual_override_path,
        );
        let inherited = match &recursive_properties {
            Some(own) => properties.with_child(own),
            None => *properties,
        };
        let auto = override_context.legacy_auto_properties.get(&node.data_result.entity_path);
        let accumulated_properties = match &individual_properties {
            Some(own) => inherited.with_child(own).with_child(&auto),
            None => inherited.with_child(&auto),
        };
        if systems_of(&node.data_result.visualizers).len() > 0 {
            node.data_result.visualizers =
            self.update_visualizers(
                blueprint,
                blueprint_query,
                &individual_override_path,
                &node.data_result.entity_path,
            );
        }
        // Recursive overrides build on those from above, and are what is handed on.
        let mut recursive_overrides = overrides.clone();
        add_overrides_at(
            blueprint,
            blueprint_query,
            &recursive_override_path,
            &mut recursive_overrides,
            Ghost(sources),
        );
        // Individual overrides come on top of that, for this entity alone.
        let mut resolved_component_overrides = recursive_overrides.clone();
        add_overrides_at(
            blueprint,
            blueprint_query,
            &individual_override_path,
            &mut resolved_component_overrides,
            Ghost(sources),
        );
        settled_hash(&recursive_override_path);
        let ranges = blueprint.latest_at_archetype::<VisibleTimeRanges>(
            &recursive_override_path,
            blueprint_query,
        );
        let query_range = match range_in(ranges, active_timeline) {
            Some(range) => QueryRange::TimeRange(range),
            None => override_context.default_query_range,
        };
        node.data_result.property_overrides =
        Some(
            PropertyOverrides {
                accumulated_properties,
                individual_properties,
                recursive_properties,
                resolved_component_overrides,
                recursive_override_path,
                individual_override_path,
                query_range,
            },
        );
        proof {
            let goal = overridden(sources, before, *properties, overrides@);
            assert(node.data_result@.visualizers =~= goal.visualizers);
            assert(node.data_result@.overrides->0 =~= goal.overrides->0);
            assert(node.data_result@ =~= goal);
        }
        (inherited, recursive_overrides)
    }
}

proof fn lemma_all_apart(trees: Seq<HandleTree>, i: int)
    requires
        all_apart(trees),
        0 <= i < trees.len(),
    ensures
        apart(trees[i]),
        handles_below(trees.take(i)).disjoint(handles(trees[i])),
        handles(trees[i]).subset_of(handles_below(trees)),
        handles_below(trees.take(i)).subset_of(handles_below(trees)),
    decreases trees.len(),
{
    if i < trees.len() - 1 {
        lemma_all_apart(trees.drop_last(), i);
        assert(trees.drop_last().take(i) =~= trees.take(i));
    } else {
        assert(trees.take(i) =~= trees.drop_last());
    }
}

proof fn lemma_linked_one(
    nodes: Map<DataResultHandle, DataResultNode>,
    trees: Seq<HandleTree>,
    i: int,
)
    requires
        all_linked(nodes, trees),
        0 <= i < trees.len(),
    ensures
        linked(nodes, trees[i]),
    decreases trees.len(),
{
    if i < trees.len() - 1 {
        lemma_linked_one(nodes, trees.drop_last(), i);
    }
}

/// Whether all nodes but some are the same in two maps.
pub open spec fn same_but_for(
    a: Map<DataResultHandle, DataResultNode>,
    b: Map<DataResultHandle, DataResultNode>,
    handles: Set<DataResultHandle>,
) -> bool {
    forall|handle: DataResultHandle|
        #![trigger a.contains_key(handle)]
        #![trigger b.contains_key(handle)]
        #![trigger a[handle]]
        #![trigger b[handle]]
        {
            &&& a.contains_key(handle) <==> b.contains_key(handle)
            &&& !handles.contains(handle) && a.contains_key(handle) ==> a[handle] == b[handle]
        }
}

impl<'a> DataQueryPropertyResolver<'a> {
    /// Works out what is overridden for an entity and everything below it.
    fn update_overrides_recursive(
        &self,
        blueprint: &EntityDb,
        blueprint_query: &LatestAtQuery,
        active_timeline: &Timeline,
        tree: &mut DataResultTree,
        override_context: &EntityOverrideContext<'_>,
        properties: &EntityProperties,
        overrides: &OverrideMap,
        handle: DataResultHandle,
        Ghost(layout): Ghost<HandleTree>,
    )
        requires
            blueprint.wf(),
            overrides.wf(),
            override_context.legacy_auto_properties.wf(),
            layout.handle == handle,
            linked(node_map(old(tree).data_results), layout),
            apart(layout),
        ensures
            final(tree).root_handle == old(tree).root_handle,
            final(tree).layout@ == old(tree).layout@,
            same_but_for(
                node_map(old(tree).data_results),
                node_map(final(tree).data_results),
                handles(layout),
            ),
            linked(node_map(final(tree).data_results), layout),
            results_at(node_map(final(tree).data_results), layout) == overridden_tree(
                self.sources(
                    *blueprint,
                    *blueprint_query,
                    *active_timeline,
                    override_context.default_query_range,
                    override_context.legacy_auto_properties.props@,
                ),
                results_at(node_map(old(tree).data_results), layout),
                *properties,
                overrides@,
            ),
        decreases layout,
    {
        let ghost sources = self.sources(
            *blueprint,
            *blueprint_query,
            *active_timeline,
            override_context.default_query_range,
            override_context.legacy_auto_properties.props@,
        );
        let ghost before = node_map(tree.data_results);
        let ghost root_handle = tree.root_handle;
        let ghost whole_layout = tree.layout@;
        let (inherited, recursive_overrides) = self.update_node(
            blueprint,
            blueprint_query,
            active_timeline,
            node_at_handle_mut(&mut tree.data_results, handle),
            override_context,
            properties,
            overrides,
        );
        let ghost start = node_map(tree.data_results);
        proof {
            lemma_same_nodes_below(before, start, layout.children);
        }
        let num_children: usize = handles_of(
            &node_at_handle(&tree.data_results, handle).children,
        ).len();
        let mut i: usize = 0;
        proof {
            let none = layout.children.take(0);
            assert(none =~= Seq::empty());
            assert(all_linked(start, none));
            assert(all_results(start, none) =~= Seq::empty());
            assert(overridden_trees(
                sources,
                all_results(start, none),
                inherited,
                recursive_overrides@,
            ) =~= Seq::empty());
        }
        while i < num_children
            invariant
                i <= num_children,
                num_children == layout.children.len(),
                blueprint.wf(),
                recursive_overrides.wf(),
                override_context.legacy_auto_properties.wf(),
                sources == self.sources(
                    *blueprint,
                    *blueprint_query,
                    *active_timeline,
                    override_context.default_query_range,
                    override_context.legacy_auto_properties.props@,
                ),
                layout.handle == handle,
                apart(layout),
                start.contains_key(handle),
                handle_list(start[handle].children) == tops(layout.children),
                all_linked(start, layout.children),
                tree.root_handle == root_handle,
                tree.layout@ == whole_layout,
                same_but_for(
                    start,
                    node_map(tree.data_results),
                    handles_below(layout.children.take(i as int)),
                ),
                all_linked(node_map(tree.data_results), layout.children.take(i as int)),
                all_results(node_map(tree.data_results), layout.children.take(i as int))
                    == overridden_trees(
                    sources,
                    all_results(start, layout.children.take(i as int)),
                    inherited,
                    recursive_overrides@,
                ),
            decreases num_children - i,
        {
            let ghost now = node_map(tree.data_results);
            let ghost done = layout.children.take(i as int);
            let ghost child = layout.children[i as int];
            proof {
                lemma_all_apart(layout.children, i as int);
                lemma_linked_one(start, layout.children, i as int);
                assert(!handles_below(done).contains(handle));
                assert(start.contains_key(handle) && now[handle] == start[handle]);
                assert(agree_on(start, now, handles(child)));
                lemma_same_nodes(start, now, child);
            }
            let child_handle = handles_of(&node_at_handle(&tree.data_results, handle).children)[i];
            self.update_overrides_recursive(
                blueprint,
                blueprint_query,
                active_timeline,
                tree,
                override_context,
                &inherited,
                &recursive_overrides,
                child_handle,
                Ghost(child),
            );
            proof {
                let after = node_map(tree.data_results);
                let more = layout.children.take(i + 1);
                assert(more.drop_last() =~= done);
                assert(more.last() == child);
                assert(agree_on(now, after, handles_below(done)));
                lemma_same_nodes_below(now, after, done);
                assert(all_results(start, more) == all_results(start, done).push(
                    results_at(start, child),
                ));
                assert(all_results(start, more).drop_last() =~= all_results(start, done));
                assert(same_but_for(start, after, handles_below(more))) by {
                    assert forall|h: DataResultHandle|
                        !handles_below(more).contains(h) && start.contains_key(h) implies start[h]
                        == after[h] by {
                        assert(!handles_below(done).contains(h));
                        assert(!handles(child).contains(h));
                        assert(now[h] == after[h]);
                    }
                }
            }
            i += 1;
        }
        proof {
            let after = node_map(tree.data_results);
            assert(layout.children.take(i as int) =~= layout.children);
            assert(after[handle] == start[handle]);
            assert(same_but_for(before, after, handles(layout))) by {
                assert forall|h: DataResultHandle|
                    !handles(layout).contains(h) && before.contains_key(h) implies before[h]
                    == after[h] by {
                    assert(!handles_below(layout.children).contains(h));
                    assert(start[h] == after[h]);
                }
            }
            let goal = overridden_tree(
                sources,
                results_at(before, layout),
                *properties,
                overrides@,
            );
            assert(results_at(after, layout).result == goal.result);
            assert(results_at(after, layout).children == goal.children);
            assert(results_at(after, layout) == goal);
        }
    }

    /// Works out what is overridden for everything that a query found.
    pub fn update_overrides(
        &self,
        blueprint: &EntityDb,
        blueprint_query: &LatestAtQuery,
        active_timeline: &Timeline,
        space_view_class_registry: &SpaceViewClassRegistry,
        legacy_auto_properties: &EntityPropertyMap,
        query_result: &mut DataQueryResult,
    )
        requires
            blueprint.wf(),
            legacy_auto_properties.wf(),
            self.visualizable_entities_per_visualizer.wf(),
            self.indicated_entities_per_visualizer.wf(),
            old(query_result).tree.wf(),
        ensures
            final(query_result).tree.wf(),
            final(query_result).num_matching_entities == old(query_result).num_matching_entities,
            final(query_result).num_visualized_entities
                == old(query_result).num_visualized_entities,
            match (final(query_result).tree@, old(query_result).tree@) {
                (Some(after), Some(before)) => after == overridden_tree(
                    self.sources(
                        *blueprint,
                        *blueprint_query,
                        *active_timeline,
                        view_query_range(
                            *self.space_view,
                            *blueprint,
                            *blueprint_query,
                            *active_timeline,
                            *space_view_class_registry,
                        ),
                        legacy_auto_properties.props@,
                    ),
                    before,
                    EntityProperties::default_spec(),
                    Map::empty(),
                ),
                (None, None) => true,
                _ => false,
            },
    {
        let override_context = self.build_override_context(
            blueprint,
            blueprint_query,
            active_timeline,
            space_view_class_registry,
            legacy_auto_properties,
        );
        if let Some(root) = query_result.tree.root_handle() {
            let properties = EntityProperties::default();
            let overrides = OverrideMap::new();
            let ghost layout = query_result.tree.layout@->0;
            self.update_overrides_recursive(
                blueprint,
                blueprint_query,
                active_timeline,
                &mut query_result.tree,
                &override_context,
                &properties,
                &overrides,
                root,
                Ghost(layout),
            );
        }
    }
}

// --- What that means.

/// Whether an entity in the blueprint sets a component.
pub open spec fn sets(
    sources: OverrideSources,
    parts: Seq<Seq<char>>,
    component: Seq<char>,
) -> bool {
    sources.is_set(parts, component) && has_info(sources.components_at(parts), component)
}

pub open spec fn has_info(components: Seq<ComponentInfo>, component: Seq<char>) -> bool {
    exists|k: int| 0 <= k < components.len() && (#[trigger] components[k]).name@ == component
}

proof fn lemma_with_components(
    sources: OverrideSources,
    overrides: Map<Seq<char>, OverrideView>,
    components: Seq<ComponentInfo>,
    parts: Seq<Seq<char>>,
    component: Seq<char>,
)
    ensures
        ({
            let after = with_components(sources, overrides, components, parts);
            if sources.is_set(parts, component) && has_info(components, component) {
                after.contains_key(component) && after[component] == from_blueprint(parts)
            } else {
                &&& after.contains_key(component) <==> overrides.contains_key(component)
                &&& after.contains_key(component) ==> after[component] == overrides[component]
            }
        }),
    decreases components.len(),
{
    if components.len() > 0 {
        let init = components.drop_last();
        lemma_with_components(sources, overrides, init, parts, component);
        if has_info(init, component) {
            let k = choose|k: int| 0 <= k < init.len() && (#[trigger] init[k]).name@ == component;
            assert(components[k].name@ == component);
        } else if components.last().name@ == component {
            assert(components[components.len() - 1].name@ == component);
        } else {
            assert(!has_info(components, component)) by {
                assert forall|k: int| 0 <= k < components.len() implies (
                #[trigger] components[k]).name@ != component by {
                    if k < init.len() {
                        assert(init[k].name@ != component);
                    }
                }
            }
        }
    }
}

/// Law: what an entity in the blueprint sets takes the place of what there was; everything else
/// stays as it was.
pub proof fn law_overrides_shadow_others(
    sources: OverrideSources,
    overrides: Map<Seq<char>, OverrideView>,
    parts: Seq<Seq<char>>,
    component: Seq<char>,
)
    ensures
        ({
            let after = with_overrides_at(sources, overrides, parts);
            if sets(sources, parts, component) {
                after.contains_key(component) && after[component] == from_blueprint(parts)
            } else {
                &&& after.contains_key(component) <==> overrides.contains_key(component)
                &&& after.contains_key(component) ==> after[component] == overrides[component]
            }
        }),
{
    lemma_with_components(sources, overrides, sources.components_at(parts), parts, component);
}

/// Law: an override for a single entity wins over one for the entity and everything below it, and
/// that one over what comes from above.
pub proof fn law_closest_override_wins(
    sources: OverrideSources,
    result: ResultView,
    properties: EntityProperties,
    overrides: Map<Seq<char>, OverrideView>,
    component: Seq<char>,
)
    ensures
        ({
            let individual = sources.individual_path(result.path);
            let recursive = sources.recursive_path(result.path);
            let found = overridden(sources, result, properties, overrides).overrides->0.components;
            if sets(sources, individual, component) {
                found.contains_key(component) && found[component] == from_blueprint(individual)
            } else if sets(sources, recursive, component) {
                found.contains_key(component) && found[component] == from_blueprint(recursive)
            } else {
                &&& found.contains_key(component) <==> overrides.contains_key(component)
                &&& found.contains_key(component) ==> found[component] == overrides[component]
            }
        }),
{
    let individual = sources.individual_path(result.path);
    let recursive = sources.recursive_path(result.path);
    let inherited = inherited_overrides(sources, result.path, overrides);
    law_overrides_shadow_others(sources, overrides, recursive, component);
    law_overrides_shadow_others(sources, inherited, individual, component);
}

proof fn lemma_overridden_trees(
    sources: OverrideSources,
    trees: Seq<ResultTree>,
    properties: EntityProperties,
    overrides: Map<Seq<char>, OverrideView>,
)
    ensures
        overridden_trees(sources, trees, properties, overrides).len() == trees.len(),
        forall|j: int|
            0 <= j < trees.len() ==> #[trigger] overridden_trees(
                sources,
                trees,
                properties,
                overrides,
            )[j] == overridden_tree(sources, trees[j], properties, overrides),
    decreases trees.len(),
{
    if trees.len() > 0 {
        lemma_overridden_trees(sources, trees.drop_last(), properties, overrides);
    }
}

/// Law: what an entity sets for everything below it reaches its children, and what it sets for
/// itself alone does not.
pub proof fn law_children_inherit_recursive_overrides(
    sources: OverrideSources,
    tree: ResultTree,
    properties: EntityProperties,
    overrides: Map<Seq<char>, OverrideView>,
    j: int,
    component: Seq<char>,
)
    requires
        0 <= j < tree.children.len(),
        !sets(sources, sources.individual_path(tree.children[j].result.path), component),
        !sets(sources, sources.recursive_path(tree.children[j].result.path), component),
    ensures
        ({
            let recursive = sources.recursive_path(tree.result.path);
            let after = overridden_tree(sources, tree, properties, overrides);
            let found = after.children[j].result.overrides->0.components;
            &&& after.children.len() == tree.children.len()
            &&& if sets(sources, recursive, component) {
                found.contains_key(component) && found[component] == from_blueprint(recursive)
            } else {
                &&& found.contains_key(component) <==> overrides.contains_key(component)
                &&& found.contains_key(component) ==> found[component] == overrides[component]
            }
        }),
{
    let inherited = inherited_overrides(sources, tree.result.path, overrides);
    let own = inherited_properties(sources, tree.result.path, properties);
    lemma_overridden_trees(sources, tree.children, own, inherited);
    let after = overridden_tree(sources, tree, properties, overrides);
    assert(after.children[j] == overridden_tree(sources, tree.children[j], own, inherited));
    law_closest_override_wins(sources, tree.children[j].result, own, inherited, component);
    law_overrides_shadow_others(
        sources,
        overrides,
        sources.recursive_path(tree.result.path),
        component,
    );
}

/// Law: an entity is interactive only if everything above it is, and nothing that is kept for it
/// says otherwise.
pub proof fn law_interactive_only_if_all_above_is(
    sources: OverrideSources,
    tree: ResultTree,
    properties: EntityProperties,
    overrides: Map<Seq<char>, OverrideView>,
)
    ensures
        forall|i: int|
            0 <= i < results_listed(
                overridden_tree(sources, tree, properties, overrides),
            ).len() && (#[trigger] results_listed(
                overridden_tree(sources, tree, properties, overrides),
            )[i]).overrides->0.accumulated_properties.interactive ==> {
                &&& properties.interactive
                &&& inherited_properties(sources, tree.result.path, properties).interactive
            },
    decreases tree,
{
    let own = inherited_properties(sources, tree.result.path, properties);
    let inherited = inherited_overrides(sources, tree.result.path, overrides);
    let all = results_listed(overridden_tree(sources, tree, properties, overrides));
    lemma_interactive_below(sources, tree.children, own, inherited);
    let below = all_results_listed(overridden_trees(sources, tree.children, own, inherited));
    assert forall|i: int|
        0 <= i < all.len() && (#[trigger] all[i]).overrides->0.accumulated_properties.interactive implies {
        &&& properties.interactive
        &&& own.interactive
    } by {
        if i > 0 {
            assert(all[i] == below[i - 1]);
        }
    }
}

proof fn lemma_interactive_below(
    sources: OverrideSources,
    trees: Seq<ResultTree>,
    properties: EntityProperties,
    overrides: Map<Seq<char>, OverrideView>,
)
    ensures
        forall|i: int|
            0 <= i < all_results_listed(
                overridden_trees(sources, trees, properties, overrides),
            ).len() && (#[trigger] all_results_listed(
                overridden_trees(sources, trees, properties, overrides),
            )[i]).overrides->0.accumulated_properties.interactive ==> properties.interactive,
    decreases trees,
{
    if trees.len() > 0 {
        let init = trees.drop_last();
        let rest = overridden_trees(sources, init, properties, overrides);
        let all = overridden_trees(sources, trees, properties, overrides);
        lemma_interactive_below(sources, init, properties, overrides);
        law_interactive_only_if_all_above_is(sources, trees.last(), properties, overrides);
        assert(all.drop_last() =~= rest);
        let n = all_results_listed(rest).len() as int;
        let own = results_listed(overridden_tree(sources, trees.last(), properties, overrides));
        assert forall|i: int|
            0 <= i < all_results_listed(all).len() && (#[trigger] all_results_listed(
                all,
            )[i]).overrides->0.accumulated_properties.interactive implies properties.interactive by {
            if i < n {
                assert(all_results_listed(all)[i] == all_results_listed(rest)[i]);
            } else {
                assert(all_results_listed(all)[i] == own[i - n]);
            }
        }
    }
}

} // verus!

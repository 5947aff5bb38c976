//! What overrides come to for each entity that a query found, going by what the blueprint holds.
use crate::classes::{
    indicated_visualizers, is_listed_for, known_class, DefaultVisualizers, SpaceViewClass,
    SpaceViewClassRegistry,
};
use crate::contents::property_parts;
use crate::data_result::{OverrideView, QueryRange, TimeRange};
use crate::entity_db::EntityDb;
use crate::entries::Entry;
use crate::names::{StoreKind, Timeline, ViewSystemIdentifier};
use crate::overrides::{
    auto_properties, entities_differ, inherited_overrides, inherited_properties,
    law_closest_override_wins, law_overrides_shadow_others, overridden, overridden_tree,
    overridden_trees, sets, view_query_range, DataQueryPropertyResolver, OverrideSources,
};
use crate::path::{entity_path_hash, entity_path_parts, hash_of, paths_contain};
use crate::query::{visualizers_for, ResultTree};
use crate::row::{CellValue, EditableAutoValue, EntityProperties, VisibleTimeRange};
use crate::space_view::SpaceViewBlueprint;
use crate::store::{latest_entry, LatestAtQuery};
use crate::tree::subtree_at;
use crate::view_id::view_parts;
use re_log_types::EntityPath;
use vstd::prelude::*;

verus! {

// --- Ways down a tree of results.

/// Whether one can go down a tree by these children.
pub open spec fn is_route(tree: ResultTree, route: Seq<int>) -> bool
    decreases route.len(),
{
    route.len() == 0 || {
        &&& 0 <= route[0] < tree.children.len()
        &&& is_route(tree.children[route[0]], route.skip(1))
    }
}

/// Where one gets by these children.
pub open spec fn at_route(tree: ResultTree, route: Seq<int>) -> ResultTree
    decreases route.len(),
{
    if route.len() == 0 {
        tree
    } else {
        at_route(tree.children[route[0]], route.skip(1))
    }
}

/// The path of the entity that one passes after some steps.
pub open spec fn path_on(tree: ResultTree, route: Seq<int>, steps: int) -> Seq<Seq<char>> {
    entity_path_parts(at_route(tree, route.take(steps)).result.path)
}

/// The properties that are handed down to where one gets.
spec fn properties_down(
    sources: OverrideSources,
    tree: ResultTree,
    route: Seq<int>,
    properties: EntityProperties,
) -> EntityProperties
    decreases route.len(),
{
    if route.len() == 0 {
        properties
    } else {
        properties_down(
            sources,
            tree.children[route[0]],
            route.skip(1),
            inherited_properties(sources, tree.result.path, properties),
        )
    }
}

/// The overrides that are handed down to where one gets.
spec fn overrides_down(
    sources: OverrideSources,
    tree: ResultTree,
    route: Seq<int>,
    overrides: Map<Seq<char>, OverrideView>,
) -> Map<Seq<char>, OverrideView>
    decreases route.len(),
{
    if route.len() == 0 {
        overrides
    } else {
        overrides_down(
            sources,
            tree.children[route[0]],
            route.skip(1),
            inherited_overrides(sources, tree.result.path, overrides),
        )
    }
}

proof fn lemma_each_is_overridden(
    sources: OverrideSources,
    trees: Seq<ResultTree>,
    properties: EntityProperties,
    overrides: Map<Seq<char>, OverrideView>,
    j: int,
)
    requires
        0 <= j < trees.len(),
    ensures
        overridden_trees(sources, trees, properties, overrides).len() == trees.len(),
        overridden_trees(sources, trees, properties, overrides)[j] == overridden_tree(
            sources,
            trees[j],
            properties,
            overrides,
        ),
    decreases trees.len(),
{
    let init = trees.drop_last();
    if j < init.len() {
        lemma_each_is_overridden(sources, init, properties, overrides, j);
    } else if init.len() > 0 {
        lemma_each_is_overridden(sources, init, properties, overrides, 0);
    }
}

proof fn lemma_at_route(
    sources: OverrideSources,
    tree: ResultTree,
    route: Seq<int>,
    properties: EntityProperties,
    overrides: Map<Seq<char>, OverrideView>,
)
    requires
        is_route(tree, route),
    ensures
        ({
            let after = overridden_tree(sources, tree, properties, overrides);
            &&& is_route(after, route)
            &&& at_route(after, route).result == overridden(
                sources,
                at_route(tree, route).result,
                properties_down(sources, tree, route, properties),
                overrides_down(sources, tree, route, overrides),
            )
            &&& at_route(after, route).children.len() == at_route(tree, route).children.len()
        }),
    decreases route.len(),
{
    let own = inherited_properties(sources, tree.result.path, properties);
    let down = inherited_overrides(sources, tree.result.path, overrides);
    if route.len() > 0 {
        lemma_each_is_overridden(sources, tree.children, own, down, route[0]);
        lemma_at_route(sources, tree.children[route[0]], route.skip(1), own, down);
    } else if tree.children.len() > 0 {
        lemma_each_is_overridden(sources, tree.children, own, down, 0);
    }
}

// --- What the blueprint holds.

/// What the blueprint holds of a component at some parts.
pub open spec fn kept(
    blueprint: EntityDb,
    query: LatestAtQuery,
    parts: Seq<Seq<char>>,
    component: Seq<char>,
) -> Option<Entry> {
    latest_entry(blueprint@.store, query, hash_of(parts), component)
}

/// Whether the blueprint sets a component at some parts: it knows the component there, and it holds
/// an instance of it.
pub open spec fn is_kept(
    blueprint: EntityDb,
    query: LatestAtQuery,
    parts: Seq<Seq<char>>,
    component: Seq<char>,
) -> bool {
    &&& kept(blueprint, query, parts, component) matches Some(entry)
    &&& entry.cell.num_instances > 0
    &&& subtree_at(blueprint@.tree, parts, 0) matches Some(node)
    &&& exists|k: int|
        0 <= k < node.components.len() && (#[trigger] node.components[k]).name@ == component
}

/// Whether these are the properties that the blueprint holds at some parts.
pub open spec fn keeps_properties(
    blueprint: EntityDb,
    query: LatestAtQuery,
    parts: Seq<Seq<char>>,
    properties: EntityProperties,
) -> bool {
    &&& kept(blueprint, query, parts, "rerun.controls.EntityProperties"@) matches Some(entry)
    &&& entry.cell.num_instances == 1
    &&& *entry.cell.value == CellValue::EntityProperties(properties)
}

/// Whether the `k`-th of the time ranges that the blueprint holds at some parts is the first one
/// for a timeline.
pub open spec fn keeps_range(
    blueprint: EntityDb,
    query: LatestAtQuery,
    parts: Seq<Seq<char>>,
    timeline: Seq<char>,
    ranges: Seq<VisibleTimeRange>,
    k: int,
) -> bool {
    &&& kept(blueprint, query, parts, "rerun.blueprint.components.VisibleTimeRange"@) matches Some(
        entry,
    )
    &&& entry.cell.num_instances > 0
    &&& *entry.cell.value matches CellValue::VisibleTimeRanges(all) && all@ == ranges
    &&& 0 <= k < ranges.len()
    &&& ranges[k].timeline@ == timeline
    &&& forall|i: int| 0 <= i < k ==> (#[trigger] ranges[i]).timeline@ != timeline
}

/// Whether a query range is the one that the blueprint holds at some parts for a timeline, or
/// something else if it holds none.
pub open spec fn is_range_at(
    blueprint: EntityDb,
    query: LatestAtQuery,
    parts: Seq<Seq<char>>,
    timeline: Seq<char>,
    range: QueryRange,
    otherwise: QueryRange,
) -> bool {
    &&& forall|ranges: Seq<VisibleTimeRange>, k: int| #[trigger]
        keeps_range(blueprint, query, parts, timeline, ranges, k) ==> range
            == QueryRange::TimeRange(TimeRange { start: ranges[k].start, end: ranges[k].end })
    &&& (forall|ranges: Seq<VisibleTimeRange>, k: int|
        !#[trigger] keeps_range(blueprint, query, parts, timeline, ranges, k)) ==> range
        == otherwise
}

proof fn lemma_range_for(ranges: Seq<VisibleTimeRange>, timeline: Seq<char>)
    ensures
        match crate::archetypes::range_for(ranges, timeline) {
            Some(range) => exists|k: int|
                #![trigger ranges[k]]
                0 <= k < ranges.len() && ranges[k].timeline@ == timeline && range == (TimeRange {
                    start: ranges[k].start,
                    end: ranges[k].end,
                }) && forall|i: int| 0 <= i < k ==> (#[trigger] ranges[i]).timeline@ != timeline,
            None => forall|k: int|
                0 <= k < ranges.len() ==> (#[trigger] ranges[k]).timeline@ != timeline,
        },
    decreases ranges.len(),
{
    if ranges.len() > 0 && ranges[0].timeline@ != timeline {
        let rest = ranges.skip(1);
        lemma_range_for(rest, timeline);
        match crate::archetypes::range_for(rest, timeline) {
            Some(range) => {
                let k = choose|k: int|
                    #![trigger rest[k]]
                    0 <= k < rest.len() && rest[k].timeline@ == timeline && range == (TimeRange {
                        start: rest[k].start,
                        end: rest[k].end,
                    }) && forall|i: int| 0 <= i < k ==> (#[trigger] rest[i]).timeline@ != timeline;
                assert(ranges[k + 1] == rest[k]);
                assert forall|i: int| 0 <= i < k + 1 implies (#[trigger] ranges[i]).timeline@
                    != timeline by {
                    if i > 0 {
                        assert(rest[i - 1].timeline@ != timeline);
                    }
                }
            },
            None => {
                assert forall|k: int| 0 <= k < ranges.len() implies (#[trigger] ranges[k]).timeline@
                    != timeline by {
                    if k > 0 {
                        assert(rest[k - 1].timeline@ != timeline);
                    }
                }
            },
        }
    } else if ranges.len() > 0 {
        assert(ranges[0].timeline@ == timeline);
    }
}

proof fn lemma_range_at(
    blueprint: EntityDb,
    query: LatestAtQuery,
    parts: Seq<Seq<char>>,
    timeline: Seq<char>,
    otherwise: QueryRange,
)
    ensures
        is_range_at(
            blueprint,
            query,
            parts,
            timeline,
            crate::space_view::range_or(
                crate::space_view::time_range_at(
                    blueprint@.store,
                    query,
                    hash_of(parts),
                    timeline,
                ),
                otherwise,
            ),
            otherwise,
        ),
{
    let name = "rerun.blueprint.components.VisibleTimeRange"@;
    let found = crate::archetypes::latest_entries(
        blueprint@.store,
        query,
        hash_of(parts),
        <crate::archetypes::VisibleTimeRanges as crate::archetypes::Archetype>::component_names(),
    );
    assert(found[0] == kept(blueprint, query, parts, name));
    if let Some(entry) = found[0] {
        if entry.cell.num_instances > 0 {
            if let CellValue::VisibleTimeRanges(all) = *entry.cell.value {
                lemma_range_for(all@, timeline);
                match crate::archetypes::range_for(all@, timeline) {
                    Some(range) => {
                        let m = choose|k: int|
                            #![trigger all@[k]]
                            0 <= k < all@.len() && all@[k].timeline@ == timeline && range
                                == (TimeRange { start: all@[k].start, end: all@[k].end })
                                && forall|i: int|
                                0 <= i < k ==> (#[trigger] all@[i]).timeline@ != timeline;
                        assert(keeps_range(blueprint, query, parts, timeline, all@, m));
                        assert forall|ranges: Seq<VisibleTimeRange>, k: int| #[trigger]
                            keeps_range(
                                blueprint,
                                query,
                                parts,
                                timeline,
                                ranges,
                                k,
                            ) implies k == m && ranges == all@ by {
                            if k < m {
                                assert(all@[k].timeline@ != timeline);
                            } else if m < k {
                                assert(ranges[m].timeline@ != timeline);
                            }
                        }
                    },
                    None => {
                        assert forall|ranges: Seq<VisibleTimeRange>, k: int|
                            !#[trigger] keeps_range(
                                blueprint,
                                query,
                                parts,
                                timeline,
                                ranges,
                                k,
                            ) by {
                            if keeps_range(blueprint, query, parts, timeline, ranges, k) {
                                assert(all@[k].timeline@ != timeline);
                            }
                        }
                    },
                }
            }
        } else {
            assert(crate::archetypes::range_for(Seq::empty(), timeline) is None);
        }
    }
}

// --- What is worked out.

/// The results of a query once overrides were worked out for them.
pub open spec fn worked_out(
    resolver: DataQueryPropertyResolver<'_>,
    blueprint: EntityDb,
    query: LatestAtQuery,
    timeline: Timeline,
    default_query_range: QueryRange,
    auto: Seq<(EntityPath, EntityProperties)>,
    found: ResultTree,
) -> ResultTree {
    overridden_tree(
        resolver.sources(blueprint, query, timeline, default_query_range, auto),
        found,
        EntityProperties::default_spec(),
        Map::empty(),
    )
}

/// Law: which part of the active timeline is shown of an entity is the first range for that
/// timeline which the blueprint holds where overrides for the entity and everything below it are
/// kept. If there is none, it is what the view shows. What is kept for the entity alone makes no
/// difference.
pub proof fn law_time_ranges_come_from_recursive_overrides(
    resolver: DataQueryPropertyResolver<'_>,
    blueprint: EntityDb,
    query: LatestAtQuery,
    timeline: Timeline,
    default_query_range: QueryRange,
    auto: Seq<(EntityPath, EntityProperties)>,
    found: ResultTree,
    route: Seq<int>,
)
    requires
        is_route(found, route),
    ensures
        ({
            let after = worked_out(
                resolver,
                blueprint,
                query,
                timeline,
                default_query_range,
                auto,
                found,
            );
            &&& at_route(after, route).result.overrides matches Some(overrides)
            &&& is_range_at(
                blueprint,
                query,
                entity_path_parts(resolver.recursive_override_root) + entity_path_parts(
                    at_route(found, route).result.path,
                ),
                timeline.name@,
                overrides.query_range,
                default_query_range,
            )
        }),
{
    let sources = resolver.sources(blueprint, query, timeline, default_query_range, auto);
    lemma_at_route(sources, found, route, EntityProperties::default_spec(), Map::empty());
    lemma_range_at(
        blueprint,
        query,
        entity_path_parts(resolver.recursive_override_root) + entity_path_parts(
            at_route(found, route).result.path,
        ),
        timeline.name@,
        default_query_range,
    );
}

/// Whether a class is the first one that is registered under a name, or the one that stands in for
/// classes that are not known.
pub open spec fn is_class_of(
    registry: SpaceViewClassRegistry,
    name: Seq<char>,
    class: SpaceViewClass,
) -> bool {
    ||| exists|k: int|
        #![trigger registry.classes@[k]]
        0 <= k < registry.classes@.len() && registry.classes@[k].0@ == name && class
            == registry.classes@[k].1 && forall|i: int|
            0 <= i < k ==> (#[trigger] registry.classes@[i]).0@ != name
    ||| class == registry.placeholder && forall|i: int|
        0 <= i < registry.classes@.len() ==> (#[trigger] registry.classes@[i]).0@ != name
}

proof fn lemma_class_of(
    classes: Seq<(crate::names::SpaceViewClassIdentifier, SpaceViewClass)>,
    name: Seq<char>,
)
    ensures
        match known_class(classes, name) {
            Some(class) => exists|k: int|
                #![trigger classes[k]]
                0 <= k < classes.len() && classes[k].0@ == name && class == classes[k].1
                    && forall|i: int| 0 <= i < k ==> (#[trigger] classes[i]).0@ != name,
            None => forall|i: int| 0 <= i < classes.len() ==> (#[trigger] classes[i]).0@ != name,
        },
    decreases classes.len(),
{
    if classes.len() > 0 && classes[0].0@ != name {
        let rest = classes.skip(1);
        lemma_class_of(rest, name);
        match known_class(rest, name) {
            Some(class) => {
                let k = choose|k: int|
                    #![trigger rest[k]]
                    0 <= k < rest.len() && rest[k].0@ == name && class == rest[k].1
                        && forall|i: int| 0 <= i < k ==> (#[trigger] rest[i]).0@ != name;
                assert(classes[k + 1] == rest[k]);
                assert forall|i: int| 0 <= i < k + 1 implies (#[trigger] classes[i]).0@ != name by {
                    if i > 0 {
                        assert(rest[i - 1].0@ != name);
                    }
                }
            },
            None => {
                assert forall|i: int| 0 <= i < classes.len() implies (#[trigger] classes[i]).0@
                    != name by {
                    if i > 0 {
                        assert(rest[i - 1].0@ != name);
                    }
                }
            },
        }
    } else if classes.len() > 0 {
        assert(classes[0].0@ == name);
    }
}

/// Law: which part of a timeline a view shows is the first range for that timeline which the
/// blueprint holds for the view. If there is none, it is what views of its class show.
pub proof fn law_views_show_the_range_that_is_kept(
    view: SpaceViewBlueprint,
    blueprint: EntityDb,
    query: LatestAtQuery,
    timeline: Timeline,
    registry: SpaceViewClassRegistry,
)
    ensures
        exists|class: SpaceViewClass|
            {
                &&& is_class_of(registry, view.class_identifier@, class)
                &&& #[trigger] is_range_at(
                    blueprint,
                    query,
                    view_parts(view.id).push("VisibleTimeRanges"@),
                    timeline.name@,
                    view_query_range(view, blueprint, query, timeline, registry),
                    class.default_query_range,
                )
            },
{
    let class = registry.class_of(view.class_identifier@);
    lemma_class_of(registry.classes@, view.class_identifier@);
    lemma_range_at(
        blueprint,
        query,
        property_parts(view.id, "VisibleTimeRanges"@),
        timeline.name@,
        class.default_query_range,
    );
}

// --- Components.

/// What is kept for an entity and everything below it, for one that is passed on the way.
pub open spec fn recursive_parts(
    resolver: DataQueryPropertyResolver<'_>,
    found: ResultTree,
    route: Seq<int>,
    steps: int,
) -> Seq<Seq<char>> {
    entity_path_parts(resolver.recursive_override_root) + path_on(found, route, steps)
}

/// Whether the blueprint sets a component for everything below an entity that is passed on the way,
/// and for none that is passed later.
pub open spec fn is_closest(
    resolver: DataQueryPropertyResolver<'_>,
    blueprint: EntityDb,
    query: LatestAtQuery,
    found: ResultTree,
    route: Seq<int>,
    component: Seq<char>,
    steps: int,
) -> bool {
    &&& 0 <= steps <= route.len()
    &&& is_kept(blueprint, query, recursive_parts(resolver, found, route, steps), component)
    &&& forall|later: int|
        steps < later <= route.len() ==> !is_kept(
            blueprint,
            query,
            #[trigger] recursive_parts(resolver, found, route, later),
            component,
        )
}

proof fn lemma_sets(
    resolver: DataQueryPropertyResolver<'_>,
    blueprint: EntityDb,
    query: LatestAtQuery,
    timeline: Timeline,
    default_query_range: QueryRange,
    auto: Seq<(EntityPath, EntityProperties)>,
    parts: Seq<Seq<char>>,
    component: Seq<char>,
)
    ensures
        sets(
            resolver.sources(blueprint, query, timeline, default_query_range, auto),
            parts,
            component,
        ) == is_kept(blueprint, query, parts, component),
{
    if let Some(node) = subtree_at(blueprint@.tree, parts, 0) {
        assert(crate::overrides::has_info(node.components, component) <==> exists|k: int|
            0 <= k < node.components.len() && (#[trigger] node.components[k]).name@ == component);
    }
}

/// What is overridden by what was passed on the way.
proof fn lemma_overrides_down(
    sources: OverrideSources,
    tree: ResultTree,
    route: Seq<int>,
    overrides: Map<Seq<char>, OverrideView>,
    component: Seq<char>,
)
    requires
        is_route(tree, route),
    ensures
        ({
            let down = overrides_down(sources, tree, route, overrides);
            &&& forall|k: int|
                0 <= k < route.len() && sets(
                    sources,
                    sources.recursive_root + #[trigger] path_on(tree, route, k),
                    component,
                ) && (forall|m: int|
                    k < m < route.len() ==> !sets(
                        sources,
                        sources.recursive_root + #[trigger] path_on(tree, route, m),
                        component,
                    )) ==> down.contains_key(component) && down[component]
                    == crate::data_result::from_blueprint(
                    sources.recursive_root + path_on(tree, route, k),
                )
            &&& (forall|k: int|
                0 <= k < route.len() ==> !sets(
                    sources,
                    sources.recursive_root + #[trigger] path_on(tree, route, k),
                    component,
                )) ==> (down.contains_key(component) <==> overrides.contains_key(component)) && (
            down.contains_key(component) ==> down[component] == overrides[component])
        }),
    decreases route.len(),
{
    if route.len() > 0 {
        let child = tree.children[route[0]];
        let rest = route.skip(1);
        let first = inherited_overrides(sources, tree.result.path, overrides);
        let down = overrides_down(sources, tree, route, overrides);
        law_overrides_shadow_others(
            sources,
            overrides,
            sources.recursive_path(tree.result.path),
            component,
        );
        lemma_overrides_down(sources, child, rest, first, component);
        assert(path_on(tree, route, 0) == entity_path_parts(tree.result.path));
        assert forall|m: int| 0 < m <= route.len() implies #[trigger] path_on(tree, route, m)
            == path_on(child, rest, m - 1) by {
            assert(route.take(m).skip(1) =~= rest.take(m - 1));
            assert(route.take(m)[0] == route[0]);
        }
        let root = sources.recursive_root;
        assert forall|m: int| 0 <= m < rest.len() implies #[trigger] path_on(child, rest, m)
            == path_on(tree, route, m + 1) by {
            assert(path_on(tree, route, m + 1) == path_on(child, rest, m + 1 - 1));
        }
        assert forall|k: int|
            0 <= k < route.len() && sets(
                sources,
                root + #[trigger] path_on(tree, route, k),
                component,
            ) && (forall|m: int|
                k < m < route.len() ==> !sets(
                    sources,
                    root + #[trigger] path_on(tree, route, m),
                    component,
                )) implies down.contains_key(component) && down[component]
            == crate::data_result::from_blueprint(root + path_on(tree, route, k)) by {
            if k > 0 {
                assert(path_on(child, rest, k - 1) == path_on(tree, route, k));
                assert forall|m: int| k - 1 < m < rest.len() implies !sets(
                    sources,
                    root + #[trigger] path_on(child, rest, m),
                    component,
                ) by {
                    assert(path_on(child, rest, m) == path_on(tree, route, m + 1));
                }
            } else {
                assert forall|m: int| 0 <= m < rest.len() implies !sets(
                    sources,
                    root + #[trigger] path_on(child, rest, m),
                    component,
                ) by {
                    assert(path_on(child, rest, m) == path_on(tree, route, m + 1));
                }
            }
        }
        if forall|k: int|
            0 <= k < route.len() ==> !sets(
                sources,
                root + #[trigger] path_on(tree, route, k),
                component,
            ) {
            assert(!sets(sources, root + path_on(tree, route, 0), component));
            assert forall|m: int| 0 <= m < rest.len() implies !sets(
                sources,
                root + #[trigger] path_on(child, rest, m),
                component,
            ) by {
                assert(path_on(child, rest, m) == path_on(tree, route, m + 1));
            }
        }
    }
}

/// Law: a component of an entity is overridden by what the blueprint sets for the entity alone. If
/// it sets nothing there, by what it sets for everything below the closest of the entity itself and
/// those above it. If it sets nothing there either, the component is not overridden.
pub proof fn law_components_are_overridden_from_close_by(
    resolver: DataQueryPropertyResolver<'_>,
    blueprint: EntityDb,
    query: LatestAtQuery,
    timeline: Timeline,
    default_query_range: QueryRange,
    auto: Seq<(EntityPath, EntityProperties)>,
    found: ResultTree,
    route: Seq<int>,
    component: Seq<char>,
)
    requires
        is_route(found, route),
    ensures
        ({
            let after = worked_out(
                resolver,
                blueprint,
                query,
                timeline,
                default_query_range,
                auto,
                found,
            );
            let alone = entity_path_parts(resolver.individual_override_root) + entity_path_parts(
                at_route(found, route).result.path,
            );
            &&& at_route(after, route).result.overrides matches Some(overrides)
            &&& if is_kept(blueprint, query, alone, component) {
                &&& overrides.components.contains_key(component)
                &&& overrides.components[component] == (OverrideView {
                    store_kind: StoreKind::Blueprint,
                    parts: alone,
                })
            } else {
                &&& forall|steps: int| #[trigger]
                    is_closest(
                        resolver,
                        blueprint,
                        query,
                        found,
                        route,
                        component,
                        steps,
                    ) ==> overrides.components.contains_key(component)
                        && overrides.components[component] == (OverrideView {
                        store_kind: StoreKind::Blueprint,
                        parts: recursive_parts(resolver, found, route, steps),
                    })
                &&& (forall|steps: int|
                    0 <= steps <= route.len() ==> !is_kept(
                        blueprint,
                        query,
                        #[trigger] recursive_parts(resolver, found, route, steps),
                        component,
                    )) ==> !overrides.components.contains_key(component)
            }
        }),
{
    let sources = resolver.sources(blueprint, query, timeline, default_query_range, auto);
    let usual = EntityProperties::default_spec();
    lemma_at_route(sources, found, route, usual, Map::empty());
    lemma_overrides_down(sources, found, route, Map::empty(), component);
    let down = overrides_down(sources, found, route, Map::empty());
    let n = route.len() as int;
    let result = at_route(found, route).result;
    law_closest_override_wins(
        sources,
        result,
        properties_down(sources, found, route, usual),
        down,
        component,
    );
    assert(route.take(n) =~= route);
    assert(recursive_parts(resolver, found, route, n) == sources.recursive_path(result.path));
    assert forall|parts: Seq<Seq<char>>| #[trigger] sets(sources, parts, component) == is_kept(
        blueprint,
        query,
        parts,
        component,
    ) by {
        lemma_sets(
            resolver,
            blueprint,
            query,
            timeline,
            default_query_range,
            auto,
            parts,
            component,
        );
    }
    let root = sources.recursive_root;
    assert forall|k: int| 0 <= k <= n implies root + #[trigger] path_on(found, route, k)
        == recursive_parts(resolver, found, route, k) by {}
    let overrides = at_route(
        worked_out(resolver, blueprint, query, timeline, default_query_range, auto, found),
        route,
    ).result.overrides->0;
    if !sets(sources, sources.individual_path(result.path), component) {
        assert forall|steps: int| #[trigger]
            is_closest(
                resolver,
                blueprint,
                query,
                found,
                route,
                component,
                steps,
            ) implies overrides.components.contains_key(component)
            && overrides.components[component] == (OverrideView {
            store_kind: StoreKind::Blueprint,
            parts: recursive_parts(resolver, found, route, steps),
        }) by {
            assert(sets(sources, recursive_parts(resolver, found, route, steps), component));
            if steps < n {
                assert(!is_kept(
                    blueprint,
                    query,
                    recursive_parts(resolver, found, route, n),
                    component,
                ));
                assert(!sets(sources, recursive_parts(resolver, found, route, n), component));
                assert(root + path_on(found, route, steps) == recursive_parts(
                    resolver,
                    found,
                    route,
                    steps,
                ));
                assert forall|m: int| steps < m < n implies !sets(
                    sources,
                    root + #[trigger] path_on(found, route, m),
                    component,
                ) by {
                    assert(!is_kept(
                        blueprint,
                        query,
                        recursive_parts(resolver, found, route, m),
                        component,
                    ));
                    assert(!sets(
                        sources,
                        recursive_parts(resolver, found, route, m),
                        component,
                    ));
                }
            }
        }
        if forall|steps: int|
            0 <= steps <= n ==> !is_kept(
                blueprint,
                query,
                #[trigger] recursive_parts(resolver, found, route, steps),
                component,
            ) {
            assert(!is_kept(
                blueprint,
                query,
                recursive_parts(resolver, found, route, n),
                component,
            ));
            assert(!sets(sources, recursive_parts(resolver, found, route, n), component));
            assert forall|m: int| 0 <= m < n implies !sets(
                sources,
                root + #[trigger] path_on(found, route, m),
                component,
            ) by {
                assert(!is_kept(
                    blueprint,
                    query,
                    recursive_parts(resolver, found, route, m),
                    component,
                ));
                assert(!sets(sources, recursive_parts(resolver, found, route, m), component));
            }
        }
    }
}

// --- Properties.

/// One of the properties that can be edited.
pub open spec fn editable(properties: EntityProperties, which: int) -> EditableAutoValue {
    if which == 0 {
        properties.color_mapper
    } else if which == 1 {
        properties.pinhole_image_plane_distance
    } else if which == 2 {
        properties.backproject_depth
    } else if which == 3 {
        properties.depth_from_world_scale
    } else if which == 4 {
        properties.backproject_radius_scale
    } else {
        properties.time_series_aggregator
    }
}

/// Whether these are the properties that the blueprint holds for everything below an entity that is
/// passed on the way.
pub open spec fn passes_properties(
    resolver: DataQueryPropertyResolver<'_>,
    blueprint: EntityDb,
    query: LatestAtQuery,
    found: ResultTree,
    route: Seq<int>,
    steps: int,
    properties: EntityProperties,
) -> bool {
    0 <= steps <= route.len() && keeps_properties(
        blueprint,
        query,
        recursive_parts(resolver, found, route, steps),
        properties,
    )
}

/// Whether these are the properties that the system came up with for an entity.
pub open spec fn is_auto(
    auto: Seq<(EntityPath, EntityProperties)>,
    path: EntityPath,
    properties: EntityProperties,
) -> bool {
    ||| exists|i: int|
        0 <= i < auto.len() && entity_path_hash((#[trigger] auto[i]).0) == entity_path_hash(path)
            && properties == auto[i].1
    ||| properties == EntityProperties::default_spec() && forall|i: int|
        0 <= i < auto.len() ==> entity_path_hash((#[trigger] auto[i]).0) != entity_path_hash(path)
}

proof fn lemma_is_auto(
    auto: Seq<(EntityPath, EntityProperties)>,
    path: EntityPath,
    properties: EntityProperties,
)
    requires
        entities_differ(auto),
        is_auto(auto, path, properties),
    ensures
        auto_properties(auto, entity_path_hash(path)) == properties,
    decreases auto.len(),
{
    if auto.len() > 0 {
        let rest = auto.skip(1);
        assert forall|i: int, j: int|
            #![trigger rest[i], rest[j]]
            0 <= i < j < rest.len() implies entity_path_hash(rest[i].0) != entity_path_hash(
            rest[j].0,
        ) by {
            assert(entity_path_hash(auto[i + 1].0) != entity_path_hash(auto[j + 1].0));
        }
        if exists|i: int|
            0 <= i < auto.len() && entity_path_hash((#[trigger] auto[i]).0) == entity_path_hash(
                path,
            ) && properties == auto[i].1 {
            let i = choose|i: int|
                0 <= i < auto.len() && entity_path_hash((#[trigger] auto[i]).0)
                    == entity_path_hash(path) && properties == auto[i].1;
            if i > 0 {
                assert(entity_path_hash(auto[0].0) != entity_path_hash(auto[i].0));
                assert(rest[i - 1] == auto[i]);
                lemma_is_auto(rest, path, properties);
            }
        } else {
            assert(entity_path_hash(auto[0].0) != entity_path_hash(path));
            assert forall|i: int| 0 <= i < rest.len() implies entity_path_hash(
                (#[trigger] rest[i]).0,
            ) != entity_path_hash(path) by {
                assert(entity_path_hash(auto[i + 1].0) != entity_path_hash(path));
            }
            lemma_is_auto(rest, path, properties);
        }
    }
}

/// What comes of properties that are handed down.
proof fn lemma_properties_down(
    sources: OverrideSources,
    tree: ResultTree,
    route: Seq<int>,
    properties: EntityProperties,
    which: int,
)
    requires
        is_route(tree, route),
    ensures
        ({
            let down = properties_down(sources, tree, route, properties);
            &&& down.interactive <==> properties.interactive && forall|k: int|
                0 <= k < route.len() ==> (sources.properties_at(
                    sources.recursive_root + #[trigger] path_on(tree, route, k),
                ) matches Some(own) ==> own.interactive)
            &&& editable(properties, which) is UserEdited ==> editable(down, which) == editable(
                properties,
                which,
            )
            &&& editable(properties, which) is Auto ==> {
                &&& forall|k: int|
                    0 <= k < route.len() && is_edited(
                        sources.properties_at(
                            sources.recursive_root + #[trigger] path_on(tree, route, k),
                        ),
                        which,
                    ) && (forall|m: int|
                        0 <= m < k ==> !is_edited(
                            sources.properties_at(
                                sources.recursive_root + #[trigger] path_on(tree, route, m),
                            ),
                            which,
                        )) ==> editable(down, which) == editable(
                        sources.properties_at(
                            sources.recursive_root + path_on(tree, route, k),
                        )->0,
                        which,
                    )
                &&& (forall|k: int|
                    0 <= k < route.len() ==> !is_edited(
                        sources.properties_at(
                            sources.recursive_root + #[trigger] path_on(tree, route, k),
                        ),
                        which,
                    )) ==> editable(down, which) is Auto
            }
        }),
    decreases route.len(),
{
    if route.len() > 0 {
        let child = tree.children[route[0]];
        let rest = route.skip(1);
        let first = inherited_properties(sources, tree.result.path, properties);
        let down = properties_down(sources, tree, route, properties);
        let root = sources.recursive_root;
        lemma_properties_down(sources, child, rest, first, which);
        assert(path_on(tree, route, 0) == entity_path_parts(tree.result.path));
        assert forall|m: int| 0 < m <= route.len() implies #[trigger] path_on(tree, route, m)
            == path_on(child, rest, m - 1) by {
            assert(route.take(m).skip(1) =~= rest.take(m - 1));
            assert(route.take(m)[0] == route[0]);
        }
        assert forall|m: int| 0 <= m < rest.len() implies #[trigger] path_on(child, rest, m)
            == path_on(tree, route, m + 1) by {
            assert(path_on(tree, route, m + 1) == path_on(child, rest, m + 1 - 1));
        }
        let own = sources.properties_at(root + path_on(tree, route, 0));
        assert(own == sources.properties_at(sources.recursive_path(tree.result.path)));
        // Whether one can interact with it.
        if down.interactive {
            assert forall|k: int| 0 <= k < route.len() implies (sources.properties_at(
                root + #[trigger] path_on(tree, route, k),
            ) matches Some(own) ==> own.interactive) by {
                if k > 0 {
                    assert(path_on(child, rest, k - 1) == path_on(tree, route, k));
                }
            }
        }
        if properties.interactive && forall|k: int|
            0 <= k < route.len() ==> (sources.properties_at(
                root + #[trigger] path_on(tree, route, k),
            ) matches Some(own) ==> own.interactive) {
            assert(sources.properties_at(root + path_on(tree, route, 0)) matches Some(own)
                ==> own.interactive);
            assert forall|m: int| 0 <= m < rest.len() implies (sources.properties_at(
                root + #[trigger] path_on(child, rest, m),
            ) matches Some(own) ==> own.interactive) by {
                assert(path_on(child, rest, m) == path_on(tree, route, m + 1));
            }
        }
        // What was edited.
        if editable(properties, which) is Auto {
            assert forall|k: int|
                0 <= k < route.len() && is_edited(
                    sources.properties_at(root + #[trigger] path_on(tree, route, k)),
                    which,
                ) && (forall|m: int|
                    0 <= m < k ==> !is_edited(
                        sources.properties_at(root + #[trigger] path_on(tree, route, m)),
                        which,
                    )) implies editable(down, which) == editable(
                sources.properties_at(root + path_on(tree, route, k))->0,
                which,
            ) by {
                if k > 0 {
                    assert(!is_edited(
                        sources.properties_at(root + path_on(tree, route, 0)),
                        which,
                    ));
                    assert(path_on(child, rest, k - 1) == path_on(tree, route, k));
                    assert forall|m: int| 0 <= m < k - 1 implies !is_edited(
                        sources.properties_at(root + #[trigger] path_on(child, rest, m)),
                        which,
                    ) by {
                        assert(path_on(child, rest, m) == path_on(tree, route, m + 1));
                    }
                }
            }
            if forall|k: int|
                0 <= k < route.len() ==> !is_edited(
                    sources.properties_at(root + #[trigger] path_on(tree, route, k)),
                    which,
                ) {
                assert(!is_edited(
                    sources.properties_at(root + path_on(tree, route, 0)),
                    which,
                ));
                assert forall|m: int| 0 <= m < rest.len() implies !is_edited(
                    sources.properties_at(root + #[trigger] path_on(child, rest, m)),
                    which,
                ) by {
                    assert(path_on(child, rest, m) == path_on(tree, route, m + 1));
                }
            }
        }
    }
}

spec fn is_edited(properties: Option<EntityProperties>, which: int) -> bool {
    match properties {
        Some(properties) => editable(properties, which) is UserEdited,
        None => false,
    }
}

proof fn lemma_properties_at(
    sources: OverrideSources,
    blueprint: EntityDb,
    parts: Seq<Seq<char>>,
)
    requires
        sources.store == blueprint@.store,
    ensures
        forall|properties: EntityProperties| #[trigger]
            keeps_properties(blueprint, sources.query, parts, properties) <==> (
            sources.properties_at(parts) == Some(properties)),
{
}

/// Law: one can interact with an entity if and only if nothing says otherwise: not what the
/// blueprint holds for everything below it or one of those above it, not what it holds for the
/// entity alone, and not what the system came up with.
pub proof fn law_interactive_unless_something_says_otherwise(
    resolver: DataQueryPropertyResolver<'_>,
    blueprint: EntityDb,
    query: LatestAtQuery,
    timeline: Timeline,
    default_query_range: QueryRange,
    auto: Seq<(EntityPath, EntityProperties)>,
    found: ResultTree,
    route: Seq<int>,
    own_auto: EntityProperties,
)
    requires
        is_route(found, route),
        entities_differ(auto),
        is_auto(auto, at_route(found, route).result.path, own_auto),
    ensures
        ({
            let after = worked_out(
                resolver,
                blueprint,
                query,
                timeline,
                default_query_range,
                auto,
                found,
            );
            let alone = entity_path_parts(resolver.individual_override_root) + entity_path_parts(
                at_route(found, route).result.path,
            );
            &&& at_route(after, route).result.overrides matches Some(overrides)
            &&& overrides.accumulated_properties.interactive <==> {
                &&& own_auto.interactive
                &&& forall|properties: EntityProperties| #[trigger]
                    keeps_properties(blueprint, query, alone, properties) ==> properties.interactive
                &&& forall|steps: int, properties: EntityProperties| #[trigger]
                    passes_properties(
                        resolver,
                        blueprint,
                        query,
                        found,
                        route,
                        steps,
                        properties,
                    ) ==> properties.interactive
            }
        }),
{
    let sources = resolver.sources(blueprint, query, timeline, default_query_range, auto);
    let usual = EntityProperties::default_spec();
    let n = route.len() as int;
    let result = at_route(found, route).result;
    lemma_at_route(sources, found, route, usual, Map::empty());
    lemma_properties_down(sources, found, route, usual, 0);
    lemma_is_auto(auto, result.path, own_auto);
    assert(route.take(n) =~= route);
    let alone = sources.individual_path(result.path);
    lemma_properties_at(sources, blueprint, alone);
    assert forall|steps: int|
        #![trigger recursive_parts(resolver, found, route, steps)]
        forall|properties: EntityProperties| #[trigger]
            keeps_properties(
                blueprint,
                query,
                recursive_parts(resolver, found, route, steps),
                properties,
            ) <==> (sources.properties_at(recursive_parts(resolver, found, route, steps)) == Some(
                properties,
            )) by {
        lemma_properties_at(sources, blueprint, recursive_parts(resolver, found, route, steps));
    }
    let root = sources.recursive_root;
    let down = properties_down(sources, found, route, usual);
    let overrides = at_route(
        worked_out(resolver, blueprint, query, timeline, default_query_range, auto, found),
        route,
    ).result.overrides->0;
    let says = overrides.accumulated_properties.interactive;
    assert(recursive_parts(resolver, found, route, n) == sources.recursive_path(result.path));
    if says {
        assert(down.interactive);
        assert forall|steps: int, properties: EntityProperties| #[trigger]
            passes_properties(
                resolver,
                blueprint,
                query,
                found,
                route,
                steps,
                properties,
            ) implies properties.interactive by {
            let parts = recursive_parts(resolver, found, route, steps);
            assert(sources.properties_at(parts) == Some(properties));
            if steps < n {
                assert(parts == root + path_on(found, route, steps));
            }
        }
    }
    if own_auto.interactive && (forall|properties: EntityProperties| #[trigger]
        keeps_properties(blueprint, query, alone, properties) ==> properties.interactive) && (
    forall|steps: int, properties: EntityProperties| #[trigger]
        passes_properties(
            resolver,
            blueprint,
            query,
            found,
            route,
            steps,
            properties,
        ) ==> properties.interactive) {
        assert forall|k: int| 0 <= k <= n implies (sources.properties_at(
            root + #[trigger] path_on(found, route, k),
        ) matches Some(own) ==> own.interactive) by {
            let parts = recursive_parts(resolver, found, route, k);
            if let Some(own) = sources.properties_at(parts) {
                assert(keeps_properties(blueprint, query, parts, own));
                assert(passes_properties(resolver, blueprint, query, found, route, k, own));
            }
        }
        assert(down.interactive);
        let parts = root + path_on(found, route, n);
        assert(sources.properties_at(parts) matches Some(own) ==> own.interactive);
        if let Some(own) = sources.properties_at(alone) {
            assert(keeps_properties(blueprint, query, alone, own));
        }
    }
}

/// Whether something is the first that was edited of a property, going from the topmost entity down
/// to the one that is asked about.
pub open spec fn edited_first(
    resolver: DataQueryPropertyResolver<'_>,
    blueprint: EntityDb,
    query: LatestAtQuery,
    found: ResultTree,
    route: Seq<int>,
    which: int,
    steps: int,
    properties: EntityProperties,
) -> bool {
    &&& passes_properties(resolver, blueprint, query, found, route, steps, properties)
    &&& editable(properties, which) is UserEdited
    &&& forall|sooner: int, other: EntityProperties| #[trigger]
        passes_properties(resolver, blueprint, query, found, route, sooner, other) && sooner
            < steps ==> editable(other, which) is Auto
}

/// Law: of what was edited about a property, that wins which is kept for everything below the
/// topmost entity. If nothing was edited there, it is what was edited for the entity alone, and if
/// that was not either, what the system came up with.
pub proof fn law_topmost_edit_wins(
    resolver: DataQueryPropertyResolver<'_>,
    blueprint: EntityDb,
    query: LatestAtQuery,
    timeline: Timeline,
    default_query_range: QueryRange,
    auto: Seq<(EntityPath, EntityProperties)>,
    found: ResultTree,
    route: Seq<int>,
    own_auto: EntityProperties,
    which: int,
)
    requires
        is_route(found, route),
        entities_differ(auto),
        is_auto(auto, at_route(found, route).result.path, own_auto),
    ensures
        ({
            let after = worked_out(
                resolver,
                blueprint,
                query,
                timeline,
                default_query_range,
                auto,
                found,
            );
            let alone = entity_path_parts(resolver.individual_override_root) + entity_path_parts(
                at_route(found, route).result.path,
            );
            &&& at_route(after, route).result.overrides matches Some(overrides)
            &&& forall|steps: int, properties: EntityProperties| #[trigger]
                edited_first(
                    resolver,
                    blueprint,
                    query,
                    found,
                    route,
                    which,
                    steps,
                    properties,
                ) ==> editable(overrides.accumulated_properties, which) == editable(
                    properties,
                    which,
                )
            &&& (forall|steps: int, properties: EntityProperties| #[trigger]
                passes_properties(
                    resolver,
                    blueprint,
                    query,
                    found,
                    route,
                    steps,
                    properties,
                ) ==> editable(properties, which) is Auto) ==> {
                &&& forall|own: EntityProperties| #[trigger]
                    keeps_properties(blueprint, query, alone, own) && editable(
                        own,
                        which,
                    ) is UserEdited ==> editable(overrides.accumulated_properties, which)
                        == editable(own, which)
                &&& (forall|own: EntityProperties| #[trigger]
                    keeps_properties(blueprint, query, alone, own) ==> editable(
                        own,
                        which,
                    ) is Auto) ==> editable(overrides.accumulated_properties, which) == editable(
                    own_auto,
                    which,
                )
            }
        }),
{
    let sources = resolver.sources(blueprint, query, timeline, default_query_range, auto);
    let usual = EntityProperties::default_spec();
    let n = route.len() as int;
    let result = at_route(found, route).result;
    lemma_at_route(sources, found, route, usual, Map::empty());
    lemma_properties_down(sources, found, route, usual, which);
    lemma_is_auto(auto, result.path, own_auto);
    assert(route.take(n) =~= route);
    let alone = sources.individual_path(result.path);
    lemma_properties_at(sources, blueprint, alone);
    let root = sources.recursive_root;
    let down = properties_down(sources, found, route, usual);
    let overrides = at_route(
        worked_out(resolver, blueprint, query, timeline, default_query_range, auto, found),
        route,
    ).result.overrides->0;
    assert(recursive_parts(resolver, found, route, n) == sources.recursive_path(result.path));
    assert forall|k: int, properties: EntityProperties| #[trigger]
        passes_properties(resolver, blueprint, query, found, route, k, properties) <==> 0 <= k
            <= n && sources.properties_at(root + path_on(found, route, k)) == Some(properties) by {
        lemma_properties_at(sources, blueprint, recursive_parts(resolver, found, route, k));
    }
    assert forall|steps: int, properties: EntityProperties| #[trigger]
        edited_first(
            resolver,
            blueprint,
            query,
            found,
            route,
            which,
            steps,
            properties,
        ) implies editable(overrides.accumulated_properties, which) == editable(
        properties,
        which,
    ) by {
        assert(passes_properties(resolver, blueprint, query, found, route, steps, properties));
        assert forall|m: int| 0 <= m < steps implies !is_edited(
            sources.properties_at(root + #[trigger] path_on(found, route, m)),
            which,
        ) by {
            if let Some(other) = sources.properties_at(root + path_on(found, route, m)) {
                assert(passes_properties(resolver, blueprint, query, found, route, m, other));
            }
        }
        if steps < n {
            assert(is_edited(
                sources.properties_at(root + path_on(found, route, steps)),
                which,
            ));
            assert(editable(down, which) == editable(properties, which));
        } else {
            assert(editable(down, which) is Auto);
        }
    }
    if forall|steps: int, properties: EntityProperties| #[trigger]
        passes_properties(
            resolver,
            blueprint,
            query,
            found,
            route,
            steps,
            properties,
        ) ==> editable(properties, which) is Auto {
        assert forall|m: int| 0 <= m < n implies !is_edited(
            sources.properties_at(root + #[trigger] path_on(found, route, m)),
            which,
        ) by {
            if let Some(other) = sources.properties_at(root + path_on(found, route, m)) {
                assert(passes_properties(resolver, blueprint, query, found, route, m, other));
            }
        }
        assert(editable(down, which) is Auto);
        if let Some(other) = sources.properties_at(root + path_on(found, route, n)) {
            assert(passes_properties(resolver, blueprint, query, found, route, n, other));
        }
        if let Some(own) = sources.properties_at(alone) {
            assert(keeps_properties(blueprint, query, alone, own));
        }
    }
}

// --- Visualizers.

/// Whether an entity is listed for a visualizer, going by the hashes of paths.
pub open spec fn lists(
    entries: Seq<(ViewSystemIdentifier, Vec<EntityPath>)>,
    system: Seq<char>,
    path: EntityPath,
) -> bool {
    exists|i: int, j: int|
        0 <= i < entries.len() && entries[i].0@ == system && 0 <= j < entries[i].1@.len()
            && entity_path_hash(#[trigger] entries[i].1@[j]) == entity_path_hash(path)
}

/// Whether a visualizer is among some.
pub open spec fn is_among(systems: Seq<ViewSystemIdentifier>, system: Seq<char>) -> bool {
    exists|i: int| 0 <= i < systems.len() && (#[trigger] systems[i])@ == system
}

proof fn lemma_lists(
    entries: Seq<(ViewSystemIdentifier, Vec<EntityPath>)>,
    system: Seq<char>,
    path: EntityPath,
)
    ensures
        is_listed_for(entries, system, path) == lists(entries, system, path),
{
    if is_listed_for(entries, system, path) {
        let i = choose|i: int|
            0 <= i < entries.len() && (#[trigger] entries[i]).0@ == system && paths_contain(
                entries[i].1@,
                path,
            );
        let j = choose|j: int|
            0 <= j < entries[i].1@.len() && entity_path_hash(#[trigger] entries[i].1@[j])
                == entity_path_hash(path);
        assert(entity_path_hash(entries[i].1@[j]) == entity_path_hash(path));
    }
    if lists(entries, system, path) {
        let (i, j) = choose|i: int, j: int|
            0 <= i < entries.len() && entries[i].0@ == system && 0 <= j < entries[i].1@.len()
                && entity_path_hash(#[trigger] entries[i].1@[j]) == entity_path_hash(path);
        assert(paths_contain(entries[i].1@, path));
    }
}

proof fn lemma_visualizers_for(
    entries: Seq<(ViewSystemIdentifier, Vec<EntityPath>)>,
    system: Seq<char>,
    path: EntityPath,
)
    ensures
        is_among(visualizers_for(entries, path), system) == is_listed_for(entries, system, path),
    decreases entries.len(),
{
    if entries.len() > 0 {
        let init = entries.drop_last();
        let rest = visualizers_for(init, path);
        let all = visualizers_for(entries, path);
        lemma_visualizers_for(init, system, path);
        if is_among(rest, system) {
            let i = choose|i: int| 0 <= i < rest.len() && (#[trigger] rest[i])@ == system;
            assert(all[i]@ == system);
        }
        if is_among(all, system) && !is_among(rest, system) {
            let i = choose|i: int| 0 <= i < all.len() && (#[trigger] all[i])@ == system;
            if i < rest.len() {
                assert(rest[i]@ == system);
            }
            assert(entries[entries.len() - 1].0@ == system);
        }
        if is_listed_for(init, system, path) {
            let i = choose|i: int|
                0 <= i < init.len() && (#[trigger] init[i]).0@ == system && paths_contain(
                    init[i].1@,
                    path,
                );
            assert(entries[i].0@ == system);
        }
        if is_listed_for(entries, system, path) && !is_listed_for(init, system, path) {
            let i = choose|i: int|
                0 <= i < entries.len() && (#[trigger] entries[i]).0@ == system && paths_contain(
                    entries[i].1@,
                    path,
                );
            if i < init.len() {
                assert(init[i].0@ == system);
            }
            assert(all[all.len() - 1]@ == system);
        }
    }
}

proof fn lemma_indicated(
    visualizable: Seq<(ViewSystemIdentifier, Vec<EntityPath>)>,
    indicated: Seq<(ViewSystemIdentifier, Vec<EntityPath>)>,
    system: Seq<char>,
    path: EntityPath,
)
    ensures
        is_among(indicated_visualizers(visualizable, indicated, path), system) <==> is_listed_for(
            visualizable,
            system,
            path,
        ) && is_listed_for(indicated, system, path),
    decreases visualizable.len(),
{
    if visualizable.len() > 0 {
        let init = visualizable.drop_last();
        let rest = indicated_visualizers(init, indicated, path);
        let all = indicated_visualizers(visualizable, indicated, path);
        lemma_indicated(init, indicated, system, path);
        if is_among(rest, system) {
            let i = choose|i: int| 0 <= i < rest.len() && (#[trigger] rest[i])@ == system;
            assert(all[i]@ == system);
        }
        if is_among(all, system) && !is_among(rest, system) {
            let i = choose|i: int| 0 <= i < all.len() && (#[trigger] all[i])@ == system;
            if i < rest.len() {
                assert(rest[i]@ == system);
            }
            assert(visualizable[visualizable.len() - 1].0@ == system);
        }
        if is_listed_for(init, system, path) {
            let i = choose|i: int|
                0 <= i < init.len() && (#[trigger] init[i]).0@ == system && paths_contain(
                    init[i].1@,
                    path,
                );
            assert(visualizable[i].0@ == system);
        }
        if is_listed_for(visualizable, system, path) && !is_listed_for(init, system, path)
            && is_listed_for(indicated, system, path) {
            let i = choose|i: int|
                0 <= i < visualizable.len() && (#[trigger] visualizable[i]).0@ == system
                    && paths_contain(visualizable[i].1@, path);
            if i < init.len() {
                assert(init[i].0@ == system);
            }
            assert(all[all.len() - 1]@ == system);
        }
    }
}

/// Whether the blueprint names visualizers at some parts.
pub open spec fn names_visualizers(
    blueprint: EntityDb,
    query: LatestAtQuery,
    parts: Seq<Seq<char>>,
    systems: Seq<ViewSystemIdentifier>,
) -> bool {
    &&& kept(blueprint, query, parts, "rerun.components.VisualizerOverrides"@) matches Some(entry)
    &&& entry.cell.num_instances == 1
    &&& *entry.cell.value matches CellValue::VisualizerOverrides(all) && all@ == systems
}

/// Law: an entity that nothing can show is shown by nothing. Any other one is shown by the
/// visualizers that the blueprint names for it alone, in their order. If it names none, it is shown
/// by those that the class of the view has chosen for it, or if the class leaves that open, by
/// those that can show it and that it asks for.
pub proof fn law_entities_are_shown_by_what_is_named(
    resolver: DataQueryPropertyResolver<'_>,
    blueprint: EntityDb,
    query: LatestAtQuery,
    timeline: Timeline,
    default_query_range: QueryRange,
    auto: Seq<(EntityPath, EntityProperties)>,
    found: ResultTree,
    route: Seq<int>,
    class: SpaceViewClass,
)
    requires
        is_route(found, route),
        is_class_of(
            *resolver.space_view_class_registry,
            resolver.space_view.class_identifier@,
            class,
        ),
    ensures
        ({
            let after = worked_out(
                resolver,
                blueprint,
                query,
                timeline,
                default_query_range,
                auto,
                found,
            );
            let path = at_route(found, route).result.path;
            let alone = entity_path_parts(resolver.individual_override_root) + entity_path_parts(
                path,
            );
            let shown_by = at_route(after, route).result.visualizers;
            &&& at_route(after, route).result.path == path
            &&& at_route(after, route).result.tree_prefix_only == at_route(
                found,
                route,
            ).result.tree_prefix_only
            &&& if at_route(found, route).result.visualizers.len() == 0 {
                shown_by.len() == 0
            } else {
                &&& forall|systems: Seq<ViewSystemIdentifier>| #[trigger]
                    names_visualizers(blueprint, query, alone, systems) ==> shown_by == systems
                &&& (forall|systems: Seq<ViewSystemIdentifier>|
                    !#[trigger] names_visualizers(blueprint, query, alone, systems)) ==> forall|
                    system: Seq<char>,
                | #[trigger]
                    is_among(shown_by, system) <==> match class.default_visualizers {
                        DefaultVisualizers::Indicated => lists(
                            resolver.visualizable_entities_per_visualizer.entries@,
                            system,
                            path,
                        ) && lists(
                            resolver.indicated_entities_per_visualizer.entries@,
                            system,
                            path,
                        ),
                        DefaultVisualizers::Chosen(chosen) => lists(
                            chosen.entries@,
                            system,
                            path,
                        ),
                    }
            }
        }),
{
    let sources = resolver.sources(blueprint, query, timeline, default_query_range, auto);
    let usual = EntityProperties::default_spec();
    lemma_at_route(sources, found, route, usual, Map::empty());
    let result = at_route(found, route).result;
    let path = result.path;
    let registry = *resolver.space_view_class_registry;
    let name = resolver.space_view.class_identifier@;
    let alone = sources.individual_path(path);
    lemma_class_of(registry.classes@, name);
    assert(registry.class_of(name) == class) by {
        let classes = registry.classes@;
        match known_class(classes, name) {
            Some(first) => {
                let k = choose|k: int|
                    #![trigger classes[k]]
                    0 <= k < classes.len() && classes[k].0@ == name && first == classes[k].1
                        && forall|i: int| 0 <= i < k ==> (#[trigger] classes[i]).0@ != name;
                assert(classes[k].0@ == name);
                let m = choose|m: int|
                    #![trigger registry.classes@[m]]
                    0 <= m < registry.classes@.len() && registry.classes@[m].0@ == name && class
                        == registry.classes@[m].1 && forall|i: int|
                        0 <= i < m ==> (#[trigger] registry.classes@[i]).0@ != name;
                if k < m {
                    assert(classes[k].0@ != name);
                } else if m < k {
                    assert(classes[m].0@ != name);
                }
            },
            None => {},
        }
    }
    match sources.named_visualizers(alone) {
        Some(systems) => {
            assert(names_visualizers(blueprint, query, alone, systems));
        },
        None => {
            assert forall|system: Seq<char>| #[trigger]
                is_among(
                    resolver.chosen_by_class(path),
                    system,
                ) <==> match class.default_visualizers {
                    DefaultVisualizers::Indicated => lists(
                        resolver.visualizable_entities_per_visualizer.entries@,
                        system,
                        path,
                    ) && lists(
                        resolver.indicated_entities_per_visualizer.entries@,
                        system,
                        path,
                    ),
                    DefaultVisualizers::Chosen(chosen) => lists(chosen.entries@, system, path),
                } by {
                match class.default_visualizers {
                    DefaultVisualizers::Indicated => {
                        let can = resolver.visualizable_entities_per_visualizer.entries@;
                        let asked = resolver.indicated_entities_per_visualizer.entries@;
                        lemma_indicated(can, asked, system, path);
                        lemma_lists(can, system, path);
                        lemma_lists(asked, system, path);
                    },
                    DefaultVisualizers::Chosen(chosen) => {
                        lemma_visualizers_for(chosen.entries@, system, path);
                        lemma_lists(chosen.entries@, system, path);
                    },
                }
            }
        },
    }
}

} // verus!

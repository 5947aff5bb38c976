//! What a view is about: the entities that a filter lets through.
use crate::archetypes::{archetype_at, Archetype, PromiseResult, SavedContents};
use crate::components::{query_expression_name, space_view_contents_short_name};
use crate::coverage::{
    all_told_apart, entities_told_apart, law_covering_filters_include_as_much,
    law_queries_count_all_that_is_included, num_included, num_shown,
};
use crate::entity_db::EntityDb;
use crate::filter::{
    covers, excludes_more_widely, expressions, filter_add, filter_expressions, filter_remove_rule,
    filter_remove_subtree, filter_rules, included, parsed_rules, path_subs, reads_back, rule_added,
    rule_texts, rules_elsewhere, rules_outside, same_rules, string_views, subtree_rule,
    without_variables, EntityPathRule, PathFilter, RuleEffect, RuleView,
};
use crate::names::{ComponentName, RowId, SpaceViewClassIdentifier, TimeInt};
use crate::path::{
    clone_path, entity_path_parts, hash_of, join_path, path_view, settled_hash, single_part_path,
    PathView,
};
use crate::query::{
    found_in, num_entities, num_matching, num_visualized, DataQueryResult, PerVisualizer,
    QueryExpressionEvaluator, MAX_NODES,
};
use crate::row::CellValue;
use crate::store::{LatestAtQuery, StoreView};
use crate::tree::listed;
use crate::view_id::{view_parts, SpaceViewId};
use re_log_types::{EntityPath, EntityPathSubs};
use vstd::prelude::*;

verus! {

// --- Writing to the blueprint.

/// What to write to the blueprint.
pub enum BlueprintValue {
    /// All of a view but its contents.
    SpaceView {
        class_identifier: SpaceViewClassIdentifier,
        display_name: Option<String>,
        /// A path, written out.
        space_origin: String,
        visible: bool,
    },
    /// The contents of a view: the rules of its filter, written out.
    Contents(Vec<String>),
    /// One component.
    Component(ComponentName, CellValue),
    /// One component, without any instances.
    EmptyComponent(ComponentName),
}

/// Something to write to the blueprint.
pub struct BlueprintWrite {
    pub entity_path: EntityPath,
    pub value: BlueprintValue,
}

// --- Contents.

/// What a view is about.
///
/// Cannot be cloned: where it is kept in the blueprint follows from the view that it belongs to.
pub struct SpaceViewContents {
    /// Where the contents are kept.
    pub blueprint_entity_path: EntityPath,
    pub space_view_class_identifier: SpaceViewClassIdentifier,
    pub entity_path_filter: PathFilter,
}

/// The parts of the path that something about a view is kept at.
pub open spec fn property_parts(id: SpaceViewId, name: Seq<char>) -> Seq<Seq<char>> {
    view_parts(id).push(name)
}

/// Where something about a view is kept.
pub(crate) fn property_path(id: SpaceViewId, name: &str) -> (r: EntityPath)
    ensures
        entity_path_parts(r) == property_parts(id, name@),
{
    let path = join_path(&id.as_entity_path(), &single_part_path(name));
    assert(entity_path_parts(path) =~= property_parts(id, name@));
    path
}

/// Something about a view, and where it is kept.
pub(crate) fn query_view_property<A: Archetype>(
    id: SpaceViewId,
    name: &str,
    blueprint_db: &EntityDb,
    query: &LatestAtQuery,
) -> (r: (PromiseResult<Option<((TimeInt, RowId), A)>>, EntityPath))
    requires
        blueprint_db.wf(),
    ensures
        entity_path_parts(r.1) == property_parts(id, name@),
        crate::archetypes::promise_view(r.0) == archetype_at::<A>(
            blueprint_db@.store,
            *query,
            hash_of(property_parts(id, name@)),
        ),
{
    let path = property_path(id, name);
    settled_hash(&path);
    (blueprint_db.latest_at_archetype::<A>(&path, query), path)
}

/// The rules that are kept for a view, written out; none if there are none that can be read.
pub open spec fn saved_rules(store: StoreView, query: LatestAtQuery, id: SpaceViewId) -> Seq<
    Seq<char>,
> {
    match archetype_at::<SavedContents>(
        store,
        query,
        hash_of(property_parts(id, "SpaceViewContents"@)),
    ) {
        PromiseResult::Ready(Some((_, query))) => query,
        _ => Seq::empty(),
    }
}

impl SpaceViewContents {
    /// Whether both are about the same, in views of the same class.
    pub fn is_equivalent(&self, other: &SpaceViewContents) -> (r: bool)
        ensures
            r == (self.space_view_class_identifier@ == other.space_view_class_identifier@
                && same_rules(
                self.entity_path_filter@,
                other.entity_path_filter@,
            )),
    {
        self.space_view_class_identifier.is(&other.space_view_class_identifier)
            && self.entity_path_filter.is(&other.entity_path_filter)
    }

    /// Whether everything that the other one is about is part of this as well, as far as the rules
    /// show.
    ///
    /// This may be too careful, but is never wrong where it says so. Views of different classes have
    /// nothing in common.
    pub fn entity_path_filter_is_superset_of(&self, other: &SpaceViewContents) -> (r: bool)
        ensures
            r == {
                &&& self.space_view_class_identifier@ == other.space_view_class_identifier@
                &&& self.entity_path_filter.is_settled() && other.entity_path_filter.is_settled()
                &&& covers(self.entity_path_filter@, other.entity_path_filter@)
                &&& !excludes_more_widely(self.entity_path_filter@, other.entity_path_filter@)
            },
            r ==> forall|path: PathView|
                included(other.entity_path_filter@, path) && all_told_apart(
                    self.entity_path_filter@,
                    other.entity_path_filter@,
                    path,
                ) ==> #[trigger] included(self.entity_path_filter@, path),
    {
        if !self.space_view_class_identifier.is(&other.space_view_class_identifier) {
            return false;
        }
        let r = self.entity_path_filter.is_superset_of(&other.entity_path_filter);
        proof {
            let rules = self.entity_path_filter@;
            let others = other.entity_path_filter@;
            if r {
                assert forall|path: PathView|
                    included(others, path) && all_told_apart(
                        rules,
                        others,
                        path,
                    ) implies #[trigger] included(rules, path) by {
                    law_covering_filters_include_as_much(rules, others, path);
                }
            }
        }
        r
    }

    /// Contents that are not saved anywhere yet.
    pub fn new(
        id: SpaceViewId,
        space_view_class_identifier: SpaceViewClassIdentifier,
        entity_path_filter: PathFilter,
    ) -> (r: SpaceViewContents)
        ensures
            entity_path_parts(r.blueprint_entity_path) == property_parts(
                id,
                "SpaceViewContents"@,
            ),
            r.space_view_class_identifier == space_view_class_identifier,
            r.entity_path_filter == entity_path_filter,
    {
        SpaceViewContents {
            blueprint_entity_path: property_path(id, space_view_contents_short_name()),
            space_view_class_identifier,
            entity_path_filter,
        }
    }

    /// The contents that are saved for a view. If there are none, or none that can be read, the view
    /// is about nothing.
    pub fn from_db_or_default(
        id: SpaceViewId,
        blueprint_db: &EntityDb,
        query: &LatestAtQuery,
        space_view_class_identifier: SpaceViewClassIdentifier,
        space_env: &EntityPathSubs,
    ) -> (r: SpaceViewContents)
        requires
            blueprint_db.wf(),
        ensures
            entity_path_parts(r.blueprint_entity_path) == property_parts(
                id,
                "SpaceViewContents"@,
            ),
            r.space_view_class_identifier == space_view_class_identifier,
            path_subs(*space_env).len() <= 1 ==> rule_texts(r.entity_path_filter@)
                == parsed_rules(
                saved_rules(blueprint_db@.store, *query, id),
                path_subs(*space_env),
            ),
            path_subs(*space_env).len() <= 1 ==> reads_back(
                r.entity_path_filter@,
                path_subs(*space_env),
            ),
            ({
                let rules = saved_rules(blueprint_db@.store, *query, id);
                &&& without_variables(rules) ==> rule_texts(r.entity_path_filter@) == parsed_rules(
                    rules,
                    Map::empty(),
                )
                &&& r.entity_path_filter.is_settled() <==> path_subs(*space_env).len() <= 1
                    || without_variables(rules)
            }),
    {
        let (contents, blueprint_entity_path) = query_view_property::<SavedContents>(
            id,
            space_view_contents_short_name(),
            blueprint_db,
            query,
        );
        SpaceViewContents::from_saved(
            contents,
            blueprint_entity_path,
            space_view_class_identifier,
            space_env,
        )
    }

    /// The contents for something that was asked of the blueprint.
    pub fn from_saved(
        contents: PromiseResult<Option<((TimeInt, RowId), SavedContents)>>,
        blueprint_entity_path: EntityPath,
        space_view_class_identifier: SpaceViewClassIdentifier,
        space_env: &EntityPathSubs,
    ) -> (r: SpaceViewContents)
        ensures
            r.blueprint_entity_path == blueprint_entity_path,
            r.space_view_class_identifier == space_view_class_identifier,
            path_subs(*space_env).len() <= 1 ==> rule_texts(r.entity_path_filter@)
                == parsed_rules(
                match contents {
                    PromiseResult::Ready(Some((_, saved))) => saved@,
                    _ => Seq::empty(),
                },
                path_subs(*space_env),
            ),
            path_subs(*space_env).len() <= 1 ==> reads_back(
                r.entity_path_filter@,
                path_subs(*space_env),
            ),
            ({
                let rules = match contents {
                    PromiseResult::Ready(Some((_, saved))) => saved@,
                    _ => Seq::empty(),
                };
                &&& without_variables(rules) ==> rule_texts(r.entity_path_filter@) == parsed_rules(
                    rules,
                    Map::empty(),
                )
                &&& r.entity_path_filter.is_settled() <==> path_subs(*space_env).len() <= 1
                    || without_variables(rules)
            }),
    {
        let rules = match contents {
            PromiseResult::Ready(Some((_, saved))) => saved.query,
            PromiseResult::Ready(None) => Vec::new(),
            PromiseResult::Pending => Vec::new(),
            PromiseResult::Error(_) => Vec::new(),
        };
        assert(!(contents matches PromiseResult::Ready(Some(_))) ==> string_views(rules@)
            =~= Seq::empty());
        SpaceViewContents {
            blueprint_entity_path,
            space_view_class_identifier,
            entity_path_filter: PathFilter::from_query_expressions(&rules, space_env),
        }
    }

    /// What to write to save everything.
    pub fn save_to_blueprint_store(&self) -> (r: BlueprintWrite)
        ensures
            r.entity_path == self.blueprint_entity_path,
            r.value matches BlueprintValue::Contents(query) && string_views(query@) == expressions(
                self.entity_path_filter@,
            ),
    {
        BlueprintWrite {
            entity_path: clone_path(&self.blueprint_entity_path),
            value: BlueprintValue::Contents(self.entity_path_filter.to_expressions()),
        }
    }

    /// What to write for another filter; nothing if it is the same.
    pub fn set_entity_path_filter(&self, new_entity_path_filter: &PathFilter) -> (r: Option<
        BlueprintWrite,
    >)
        ensures
            r is None <==> same_rules(
                self.entity_path_filter@,
                new_entity_path_filter@,
            ),
            r matches Some(write) ==> writes_rules(
                *self,
                new_entity_path_filter@,
                write,
            ),
    {
        if self.entity_path_filter.is(new_entity_path_filter) {
            return None;
        }
        Some(self.write_of(new_entity_path_filter.to_expressions()))
    }

    /// What to write for other rules.
    fn write_of(&self, expressions: Vec<String>) -> (r: BlueprintWrite)
        ensures
            r.entity_path == self.blueprint_entity_path,
            r.value matches BlueprintValue::Component(name, CellValue::QueryExpressions(query))
                && name@ == "rerun.blueprint.components.QueryExpression"@ && query == expressions,
    {
        BlueprintWrite {
            entity_path: clone_path(&self.blueprint_entity_path),
            value: BlueprintValue::Component(
                query_expression_name(),
                CellValue::QueryExpressions(expressions),
            ),
        }
    }

    /// What to write for other rules; nothing if they are the same.
    fn replace_rules(&self, rules: &re_log_types::EntityPathFilter) -> (r: Option<BlueprintWrite>)
        ensures
            changes_rules(*self, filter_rules(*rules), r),
    {
        if self.entity_path_filter.has_rules(rules) {
            return None;
        }
        Some(self.write_of(filter_expressions(rules)))
    }

    /// What to write so that a path and everything below it is left out, whatever the rules said
    /// before; nothing if that changes nothing.
    ///
    /// The most specific rule wins, so it would not be enough to add one that excludes the path:
    /// rules for anything below it go.
    pub fn remove_subtree_and_matching_rules(&self, path: EntityPath) -> (r: Option<BlueprintWrite>)
        ensures
            exists|rules: Seq<RuleView>| #[trigger]
                rule_added(
                    rules_outside(self.entity_path_filter@, path_view(path)),
                    subtree_rule(path_view(path), false),
                    rules,
                ) && changes_rules(*self, rules, r),
    {
        let mut rules = self.entity_path_filter.to_rules();
        filter_remove_subtree(&mut rules, path);
        self.replace_rules(&rules)
    }

    /// What to write so that a rule excludes; nothing if that changes nothing.
    ///
    /// This is about that rule alone, not about any that it overlaps or contradicts. To leave out
    /// everything below a path, use [`SpaceViewContents::remove_subtree_and_matching_rules`].
    pub fn raw_add_entity_exclusion(&self, rule: EntityPathRule) -> (r: Option<BlueprintWrite>)
        ensures
            exists|rules: Seq<RuleView>| #[trigger]
                rule_added(
                    self.entity_path_filter@,
                    rule.with_effect(false),
                    rules,
                ) && changes_rules(*self, rules, r),
    {
        let mut rules = self.entity_path_filter.to_rules();
        filter_add(&mut rules, RuleEffect::Exclude, rule);
        self.replace_rules(&rules)
    }

    /// What to write so that a rule includes; nothing if that changes nothing.
    ///
    /// This is about that rule alone, not about any that it overlaps or contradicts.
    pub fn raw_add_entity_inclusion(&self, rule: EntityPathRule) -> (r: Option<BlueprintWrite>)
        ensures
            exists|rules: Seq<RuleView>| #[trigger]
                rule_added(
                    self.entity_path_filter@,
                    rule.with_effect(true),
                    rules,
                ) && changes_rules(*self, rules, r),
    {
        let mut rules = self.entity_path_filter.to_rules();
        filter_add(&mut rules, RuleEffect::Include, rule);
        self.replace_rules(&rules)
    }

    /// What to write so that no rule is about a path itself; nothing if that changes nothing.
    pub fn remove_filter_rule_for(&self, ent_path: &EntityPath) -> (r: Option<BlueprintWrite>)
        ensures
            changes_rules(
                *self,
                rules_elsewhere(self.entity_path_filter@, path_view(*ent_path)),
                r,
            ),
    {
        let mut rules = self.entity_path_filter.to_rules();
        filter_remove_rule(&mut rules, ent_path);
        self.replace_rules(&rules)
    }

    /// What the view is about in a recording. Nothing is overridden yet.
    pub fn execute_query(&self, recording: &EntityDb, visualizable_entities: &PerVisualizer) -> (r:
        DataQueryResult)
        requires
            num_entities(recording.tree) <= MAX_NODES,
            visualizable_entities.wf(),
        ensures
            r.tree.wf(),
            r.tree@ == found_in(
                recording.tree,
                self.entity_path_filter@,
                visualizable_entities.entries@,
            ),
            r.num_matching_entities == num_matching(
                recording.tree,
                self.entity_path_filter@,
            ),
            r.num_visualized_entities == num_visualized(
                recording.tree,
                self.entity_path_filter@,
                visualizable_entities.entries@,
            ),
            ({
                let rules = self.entity_path_filter@;
                let entities = listed(recording.tree);
                recording.wf() && entities_told_apart(rules, recording.tree) ==> {
                    &&& r.num_matching_entities == num_included(entities, rules)
                    &&& r.num_visualized_entities == num_shown(
                        entities,
                        rules,
                        visualizable_entities.entries@,
                    )
                }
            }),
    {
        proof {
            let rules = self.entity_path_filter@;
            if recording.wf() && entities_told_apart(rules, recording.tree) {
                law_queries_count_all_that_is_included(
                    recording.tree,
                    Seq::empty(),
                    rules,
                    visualizable_entities.entries@,
                );
            }
        }
        let executor = QueryExpressionEvaluator {
            visualizable_entities,
            entity_path_filter: self.entity_path_filter.clone(),
        };
        executor.evaluate(recording.tree())
    }
}

/// Whether a write replaces the rules of a view by others.
pub open spec fn writes_rules(
    contents: SpaceViewContents,
    rules: Seq<RuleView>,
    write: BlueprintWrite,
) -> bool {
    &&& write.entity_path == contents.blueprint_entity_path
    &&& write.value matches BlueprintValue::Component(name, CellValue::QueryExpressions(query))
        && name@ == "rerun.blueprint.components.QueryExpression"@ && string_views(query@)
        == expressions(rules)
}

/// Whether the rules of a view are replaced by others, or nothing is written if they are the same.
pub open spec fn changes_rules(
    contents: SpaceViewContents,
    rules: Seq<RuleView>,
    write: Option<BlueprintWrite>,
) -> bool {
    &&& write is None <==> same_rules(contents.entity_path_filter@, rules)
    &&& write matches Some(write) ==> writes_rules(contents, rules, write)
}

} // verus!

//! Views: what they are called, what they are about, and how they are kept in the blueprint.
use crate::archetypes::{
    archetype_at, full_cell, latest_entries, range_for, saved_name, saved_origin, saved_visible,
    text_of, Archetype, AssemblyError, PromiseResult, SavedContents, SavedSpaceView,
    VisibleTimeRanges,
};
use crate::classes::{is_listed_for, SpaceViewClass, SpaceViewClassRegistry};
use crate::components::{
    clear_is_recursive_name, entity_properties_name, name_name, space_view_blueprint_components,
    space_view_origin_name, visible_name, visible_time_ranges_short_name,
};
use crate::contents::{
    property_parts, property_path, query_view_property, saved_rules, BlueprintValue,
    BlueprintWrite, SpaceViewContents,
};
use crate::data_result::{systems_of, QueryRange, ResultView, TimeRange};
use crate::entity_db::{latest_mono, EntityDb};
use crate::filter::{
    expressions, origin_subs, parsed_rules, reads_back, rule_texts, string_views, subtree_rule,
    PathFilter, RuleText,
};
use crate::ingest::row_views;
use crate::names::{
    is_one_of, names_contain, ComponentName, SpaceViewClassIdentifier, TimeInt, Timeline,
    ViewSystemIdentifier,
};
use crate::path::{
    clone_path, entity_path_hash, entity_path_parts, hash_of, is_one_of_paths, is_readable,
    join_path, parse_path, parsed_path, path_len, path_part, path_suffix, path_text,
    path_to_string, path_view, paths_contain, root_path, same_path, settled_hash,
};
use crate::query::{results_of, without_repeats, DataQueryResult, PerVisualizer};
use crate::row::{
    components_distinct, CellValue, DataCell, DataRow, EntityProperties, TimePoint,
};
use crate::store::{latest_entry, LatestAtQuery, StoreView};
use crate::tree::{listed, listed_children, node_at, paths_lead, EntityTree, VisitedView};
use crate::view_id::{view_parts, SpaceViewId};
use re_log_types::EntityPath;
use vstd::prelude::*;
use vstd::string::StringExecFns;
use vstd::utf8::encode_utf8;

verus! {

/// What variables stand for in the rules of a view.
pub open spec fn origin_env(origin: Seq<Seq<char>>) -> Map<Seq<char>, Seq<char>> {
    map!["origin"@ => path_text(origin)]
}

/// A view that would be worth having.
pub struct RecommendedSpaceView {
    pub origin: EntityPath,
    pub query_filter: PathFilter,
}

impl RecommendedSpaceView {
    /// A view of what some rules let through, in which `$origin` stands for the origin.
    pub fn new(origin: EntityPath, query: &Vec<String>) -> (r: RecommendedSpaceView)
        ensures
            r.origin == origin,
            rule_texts(r.query_filter@) == parsed_rules(
                string_views(query@),
                origin_env(entity_path_parts(origin)),
            ),
            reads_back(r.query_filter@, origin_env(entity_path_parts(origin))),
            r.query_filter.is_settled(),
    {
        let subs = origin_subs(&origin);
        proof {
            lemma_one_substitution(path_text(entity_path_parts(origin)));
        }
        let query_filter = PathFilter::from_query_expressions(query, &subs);
        RecommendedSpaceView { origin, query_filter }
    }

    /// A view of everything.
    pub fn root() -> (r: RecommendedSpaceView)
        ensures
            entity_path_parts(r.origin) == Seq::<Seq<char>>::empty(),
            r.query_filter@ == seq![subtree_rule(path_view(r.origin), true)],
            reads_back(r.query_filter@, origin_env(entity_path_parts(r.origin))),
            r.query_filter.is_settled(),
    {
        let origin = root_path();
        proof {
            lemma_one_substitution(path_text(entity_path_parts(origin)));
        }
        let query_filter = PathFilter::subtree_entity_filter(&origin);
        RecommendedSpaceView { origin, query_filter }
    }
}

proof fn lemma_one_substitution(text: Seq<char>)
    ensures
        map!["origin"@ => text].len() == 1,
{
    assert(map!["origin"@ => text].dom() =~= set!["origin"@]);
}

/// The name of a view: its own, or one to show in its place.
#[derive(Debug)]
pub enum ContentsName {
    Named(String),
    Placeholder(String),
}

/// A view.
///
/// Cannot be cloned: where it is kept in the blueprint follows from its identity.
pub struct SpaceViewBlueprint {
    pub id: SpaceViewId,
    pub display_name: Option<String>,
    pub class_identifier: SpaceViewClassIdentifier,
    /// The entity that the view is centered on.
    pub space_origin: EntityPath,
    pub contents: SpaceViewContents,
    /// Whether the view is shown.
    pub visible: bool,
    /// What is still to be written after the view was duplicated.
    pub pending_writes: Vec<DataRow>,
}

// --- Names.

/// A path shortened from the front: parts are added until there are more than ten bytes.
pub open spec fn shortened(parts: Seq<Seq<char>>, text: Seq<char>) -> Seq<char>
    decreases parts.len(),
{
    if parts.len() == 0 {
        text
    } else if encode_utf8(text).len() > 10 {
        seq!['\u{2026}', '/'] + text
    } else {
        shortened(
            parts.drop_last(),
            parts.last() + (if text.len() == 0 {
                Seq::empty()
            } else {
                seq!['/']
            }) + text,
        )
    }
}

/// The name to show for a view that has none.
pub open spec fn placeholder_name(parts: Seq<Seq<char>>) -> Seq<char> {
    let text = shortened(parts, Seq::empty());
    if text.len() == 0 {
        seq!['/']
    } else {
        text
    }
}

impl SpaceViewBlueprint {
    /// The name to show for a view that has none: the path of its origin, shortened.
    pub fn missing_name_placeholder(&self) -> (r: String)
        ensures
            r@ == placeholder_name(entity_path_parts(self.space_origin)),
    {
        let ghost parts = entity_path_parts(self.space_origin);
        proof {
            reveal_strlit("/");
            reveal_strlit("\u{2026}/");
        }
        let mut text = String::new();
        let mut n: usize = path_len(&self.space_origin);
        assert(parts.take(n as int) =~= parts);
        assert(text@ =~= Seq::empty());
        while n > 0
            invariant_except_break
                parts == entity_path_parts(self.space_origin),
                n <= parts.len(),
                "/"@ =~= seq!['/'],
                "\u{2026}/"@ =~= seq!['\u{2026}', '/'],
                shortened(parts, Seq::empty()) == shortened(parts.take(n as int), text@),
            ensures
                shortened(parts, Seq::empty()) == text@,
            decreases n,
        {
            assert(parts.take(n as int).drop_last() =~= parts.take(n - 1));
            if text.as_str().as_bytes().len() > 10 {
                let mut short = String::from_str("\u{2026}/");
                short.append(text.as_str());
                assert(short@ =~= seq!['\u{2026}', '/'] + text@);
                text = short;
                break;
            }
            let mut longer = path_part(&self.space_origin, n - 1);
            if !text.as_str().is_empty() {
                longer.append("/");
            }
            longer.append(text.as_str());
            assert(longer@ =~= parts.take(n as int).last() + (if text@.len() == 0 {
                Seq::empty()
            } else {
                seq!['/']
            }) + text@);
            text = longer;
            n -= 1;
        }
        if text.as_str().is_empty() {
            String::from_str("/")
        } else {
            text
        }
    }

    /// The name of the view, or one to show in its place.
    pub fn display_name_or_default(&self) -> (r: ContentsName)
        ensures
            match (self.display_name, r) {
                (Some(name), ContentsName::Named(text)) => text@ == name@,
                (None, ContentsName::Placeholder(text)) => text@ == placeholder_name(
                    entity_path_parts(self.space_origin),
                ),
                _ => false,
            },
    {
        match &self.display_name {
            Some(name) => ContentsName::Named(name.clone()),
            None => ContentsName::Placeholder(self.missing_name_placeholder()),
        }
    }
}

// --- Loading and saving.

/// What to write to save a view.
pub struct SpaceViewUpdate {
    /// Its contents.
    pub contents: BlueprintWrite,
    /// What was still to be written after the view was duplicated.
    pub rows: Vec<DataRow>,
    /// The view itself.
    pub space_view: BlueprintWrite,
}

/// Where the overrides for a single entity are kept.
pub open spec fn individual_overrides() -> Seq<char> {
    "individual_overrides"@
}

/// Everything about a view, without anything that differs between machines.
#[verifier::ext_equal]
pub struct ViewState {
    pub id: SpaceViewId,
    pub display_name: Option<Seq<char>>,
    pub class_identifier: SpaceViewClassIdentifier,
    pub origin: Seq<Seq<char>>,
    pub visible: bool,
    pub rules: Seq<RuleText>,
}

impl SpaceViewBlueprint {
    /// Everything about the view.
    pub open spec fn state(self) -> ViewState {
        ViewState {
            id: self.id,
            display_name: text_of(self.display_name),
            class_identifier: self.class_identifier,
            origin: entity_path_parts(self.space_origin),
            visible: self.visible,
            rules: rule_texts(self.contents.entity_path_filter@),
        }
    }

    /// Whether the contents belong to the view, and their rules read back as they are written.
    pub open spec fn is_in_place(self) -> bool {
        &&& entity_path_parts(self.contents.blueprint_entity_path) == property_parts(
            self.id,
            "SpaceViewContents"@,
        )
        &&& self.contents.space_view_class_identifier == self.class_identifier
        &&& reads_back(
            self.contents.entity_path_filter@,
            origin_env(entity_path_parts(self.space_origin)),
        )
    }
}

/// The view that is saved under an identity, if there is one that can be read.
pub open spec fn saved_view(store: StoreView, query: LatestAtQuery, id: SpaceViewId) -> Option<
    ViewState,
> {
    match archetype_at::<SavedSpaceView>(store, query, hash_of(view_parts(id))) {
        PromiseResult::Ready(Some((_, saved))) => {
            let origin = match saved.space_origin {
                Some(text) => parsed_path(text),
                None => Seq::empty(),
            };
            Some(
                ViewState {
                    id,
                    display_name: saved.display_name,
                    class_identifier: saved.class_identifier,
                    origin,
                    visible: match saved.visible {
                        Some(visible) => visible,
                        None => true,
                    },
                    rules: parsed_rules(saved_rules(store, query, id), origin_env(origin)),
                },
            )
        },
        _ => None,
    }
}

/// Whether an update saves a view.
pub open spec fn saves(view: SpaceViewBlueprint, update: SpaceViewUpdate) -> bool {
    let origin = entity_path_parts(view.space_origin);
    &&& update.contents.entity_path == view.contents.blueprint_entity_path
    &&& update.contents.value matches BlueprintValue::Contents(query) && string_views(query@)
        == expressions(view.contents.entity_path_filter@)
    &&& entity_path_parts(update.space_view.entity_path) == view_parts(view.id)
    &&& update.space_view.value matches BlueprintValue::SpaceView {
        class_identifier,
        display_name,
        space_origin,
        visible,
    } && class_identifier == view.class_identifier && text_of(display_name) == text_of(
        view.display_name,
    ) && space_origin@ == path_text(origin) && visible == view.visible
    &&& is_readable(origin) ==> parsed_path(path_text(origin)) == origin
}

impl SpaceViewBlueprint {
    /// A view that is not saved anywhere yet.
    pub fn with_id(
        id: SpaceViewId,
        space_view_class: SpaceViewClassIdentifier,
        recommended: RecommendedSpaceView,
    ) -> (r: SpaceViewBlueprint)
        ensures
            r.id == id,
            r.display_name is None,
            r.class_identifier == space_view_class,
            r.space_origin == recommended.origin,
            entity_path_parts(r.contents.blueprint_entity_path) == property_parts(
                id,
                "SpaceViewContents"@,
            ),
            r.contents.space_view_class_identifier == space_view_class,
            r.contents.entity_path_filter == recommended.query_filter,
            r.visible,
            r.pending_writes@.len() == 0,
    {
        SpaceViewBlueprint {
            id,
            display_name: None,
            class_identifier: space_view_class,
            space_origin: recommended.origin,
            contents: SpaceViewContents::new(id, space_view_class, recommended.query_filter),
            visible: true,
            pending_writes: Vec::new(),
        }
    }

    /// A view with an identity of its own that is not saved anywhere yet.
    pub fn new(
        space_view_class: SpaceViewClassIdentifier,
        recommended: RecommendedSpaceView,
    ) -> (r: SpaceViewBlueprint)
        ensures
            exists|bits: u128| r.id == #[trigger] SpaceViewId::from_random_spec(bits),
            r.display_name is None,
            r.class_identifier == space_view_class,
            r.space_origin == recommended.origin,
            entity_path_parts(r.contents.blueprint_entity_path) == property_parts(
                r.id,
                "SpaceViewContents"@,
            ),
            r.contents.space_view_class_identifier == space_view_class,
            r.contents.entity_path_filter == recommended.query_filter,
            r.visible,
            r.pending_writes@.len() == 0,
    {
        SpaceViewBlueprint::with_id(SpaceViewId::random(), space_view_class, recommended)
    }

    /// The view that is saved under an identity. There is none if nothing is saved there, or
    /// nothing that can be read.
    pub fn try_from_db(id: SpaceViewId, blueprint_db: &EntityDb, query: &LatestAtQuery) -> (r:
        Option<SpaceViewBlueprint>)
        requires
            blueprint_db.wf(),
        ensures
            match (r, saved_view(blueprint_db@.store, *query, id)) {
                (Some(view), Some(state)) => {
                    &&& view.state() == state
                    &&& view.is_in_place()
                    &&& view.contents.entity_path_filter.is_settled()
                    &&& view.pending_writes@.len() == 0
                },
                (None, None) => true,
                _ => false,
            },
    {
        let path = id.as_entity_path();
        settled_hash(&path);
        let saved = match blueprint_db.latest_at_archetype::<SavedSpaceView>(&path, query) {
            PromiseResult::Ready(Some((_, saved))) => saved,
            PromiseResult::Ready(None) => {
                return None;
            },
            PromiseResult::Pending => {
                return None;
            },
            PromiseResult::Error(_) => {
                return None;
            },
        };
        let space_origin = match &saved.space_origin {
            Some(text) => parse_path(text.as_str()),
            None => root_path(),
        };
        let space_env = origin_subs(&space_origin);
        proof {
            lemma_one_substitution(path_text(entity_path_parts(space_origin)));
        }
        let contents = SpaceViewContents::from_db_or_default(
            id,
            blueprint_db,
            query,
            saved.class_identifier,
            &space_env,
        );
        let visible = match saved.visible {
            Some(visible) => visible,
            None => true,
        };
        let ghost store = blueprint_db@.store;
        let view = SpaceViewBlueprint {
            id,
            display_name: saved.display_name,
            class_identifier: saved.class_identifier,
            space_origin,
            contents,
            visible,
            pending_writes: Vec::new(),
        };
        assert(view.state() =~= saved_view(store, *query, id)->0);
        Some(view)
    }

    /// What to write to save everything. What was still to be written after the view was duplicated
    /// comes before the view itself.
    pub fn save_to_blueprint_store(&self) -> (r: SpaceViewUpdate)
        ensures
            saves(*self, r),
            row_views(r.rows@) == row_views(self.pending_writes@),
    {
        let mut rows: Vec<DataRow> = Vec::new();
        let mut i: usize = 0;
        while i < self.pending_writes.len()
            invariant
                i <= self.pending_writes@.len(),
                rows@.len() == i,
                forall|j: int| 0 <= j < i ==> (#[trigger] rows@[j])@ == self.pending_writes@[j]@,
            decreases self.pending_writes@.len() - i,
        {
            rows.push(self.pending_writes[i].clone());
            i += 1;
        }
        assert(row_views(rows@) =~= row_views(self.pending_writes@));
        let display_name = match &self.display_name {
            Some(name) => Some(name.clone()),
            None => None,
        };
        SpaceViewUpdate {
            contents: self.contents.save_to_blueprint_store(),
            rows,
            space_view: BlueprintWrite {
                entity_path: self.entity_path(),
                value: BlueprintValue::SpaceView {
                    class_identifier: self.class_identifier,
                    display_name,
                    space_origin: path_to_string(&self.space_origin),
                    visible: self.visible,
                },
            },
        }
    }

    /// Where the view is kept.
    pub fn entity_path(&self) -> (r: EntityPath)
        ensures
            entity_path_parts(r) == view_parts(self.id),
    {
        self.id.as_entity_path()
    }

    /// What to write to remove the view and everything about it.
    pub fn clear(&self) -> (r: BlueprintWrite)
        ensures
            entity_path_parts(r.entity_path) == view_parts(self.id),
            r.value matches BlueprintValue::Component(name, CellValue::ClearIsRecursive(recursive))
                && name@ == "rerun.components.ClearIsRecursive"@ && recursive,
    {
        BlueprintWrite {
            entity_path: self.entity_path(),
            value: BlueprintValue::Component(
                clear_is_recursive_name(),
                CellValue::ClearIsRecursive(true),
            ),
        }
    }

    /// What to write to give the view a name, or to take it away; nothing if that is its name
    /// already.
    pub fn set_display_name(&self, name: Option<String>) -> (r: Option<BlueprintWrite>)
        ensures
            r is None <==> text_of(name) == text_of(self.display_name),
            r matches Some(write) ==> {
                &&& entity_path_parts(write.entity_path) == view_parts(self.id)
                &&& match (name, write.value) {
                    (
                        Some(text),
                        BlueprintValue::Component(component, CellValue::Name(written)),
                    ) => component@ == "rerun.components.Name"@ && written@ == text@,
                    (None, BlueprintValue::EmptyComponent(component)) => component@
                        == "rerun.components.Name"@,
                    _ => false,
                }
            },
    {
        let same = match (&name, &self.display_name) {
            (Some(name), Some(current)) => *name == *current,
            (None, None) => true,
            _ => false,
        };
        if same {
            return None;
        }
        let value = match name {
            Some(name) => BlueprintValue::Component(name_name(), CellValue::Name(name)),
            None => BlueprintValue::EmptyComponent(name_name()),
        };
        Some(BlueprintWrite { entity_path: self.entity_path(), value })
    }

    /// What to write to center the view on another entity; nothing if it is centered on it already.
    pub fn set_origin(&self, origin: &EntityPath) -> (r: Option<BlueprintWrite>)
        ensures
            r is None <==> entity_path_hash(*origin) == entity_path_hash(self.space_origin),
            r matches Some(write) ==> {
                &&& entity_path_parts(write.entity_path) == view_parts(self.id)
                &&& write.value matches BlueprintValue::Component(
                    component,
                    CellValue::SpaceViewOrigin(text),
                ) && component@ == "rerun.blueprint.components.SpaceViewOrigin"@ && text@
                    == path_text(entity_path_parts(*origin))
            },
    {
        if same_path(origin, &self.space_origin) {
            return None;
        }
        Some(
            BlueprintWrite {
                entity_path: self.entity_path(),
                value: BlueprintValue::Component(
                    space_view_origin_name(),
                    CellValue::SpaceViewOrigin(path_to_string(origin)),
                ),
            },
        )
    }

    /// What to write to show or to hide the view; nothing if that is how it is already.
    pub fn set_visible(&self, visible: bool) -> (r: Option<BlueprintWrite>)
        ensures
            r is None <==> visible == self.visible,
            r matches Some(write) ==> {
                &&& entity_path_parts(write.entity_path) == view_parts(self.id)
                &&& write.value matches BlueprintValue::Component(
                    component,
                    CellValue::Visible(written),
                ) && component@ == "rerun.blueprint.components.Visible"@ && written == visible
            },
    {
        if visible == self.visible {
            return None;
        }
        Some(
            BlueprintWrite {
                entity_path: self.entity_path(),
                value: BlueprintValue::Component(visible_name(), CellValue::Visible(visible)),
            },
        )
    }

    pub fn class_identifier(&self) -> (r: &SpaceViewClassIdentifier)
        ensures
            *r == self.class_identifier,
    {
        &self.class_identifier
    }

    /// The class of the view, or a placeholder if it is not known.
    pub fn class<'a>(&self, space_view_class_registry: &'a SpaceViewClassRegistry) -> (r:
        &'a SpaceViewClass)
        ensures
            *r == space_view_class_registry.class_of(self.class_identifier@),
    {
        space_view_class_registry.get_class(&self.class_identifier)
    }
}

// --- Properties.

/// The properties that are kept at an entity, if there are any.
pub open spec fn properties_at(store: StoreView, query: LatestAtQuery, hash: u64) -> Option<
    EntityProperties,
> {
    match latest_mono(store, query, hash, "rerun.controls.EntityProperties"@) {
        Some(entry) => match *entry.cell.value {
            CellValue::EntityProperties(properties) => Some(properties),
            _ => None,
        },
        None => None,
    }
}

/// The time range that is kept at an entity for a timeline, if there is one.
pub open spec fn time_range_at(
    store: StoreView,
    query: LatestAtQuery,
    hash: u64,
    timeline: Seq<char>,
) -> Option<TimeRange> {
    match archetype_at::<VisibleTimeRanges>(store, query, hash) {
        PromiseResult::Ready(Some((_, ranges))) => range_for(ranges, timeline),
        _ => None,
    }
}

/// A time range, or what to fall back on.
pub open spec fn range_or(range: Option<TimeRange>, default: QueryRange) -> QueryRange {
    match range {
        Some(range) => QueryRange::TimeRange(range),
        None => default,
    }
}

/// The properties that are kept at an entity, if there are any.
pub(crate) fn find_properties(
    blueprint: &EntityDb,
    blueprint_query: &LatestAtQuery,
    path: &EntityPath,
) -> (r: Option<EntityProperties>)
    requires
        blueprint.wf(),
    ensures
        r == properties_at(
            blueprint@.store,
            *blueprint_query,
            hash_of(entity_path_parts(*path)),
        ),
{
    settled_hash(path);
    match blueprint.latest_at_component_quiet(path, blueprint_query, &entity_properties_name()) {
        Some((_, _, cell)) => match &*cell.value {
            CellValue::EntityProperties(properties) => Some(*properties),
            _ => None,
        },
        None => None,
    }
}

/// The time range in what is kept for a timeline, if there is one.
pub(crate) fn range_in(
    ranges: PromiseResult<Option<((TimeInt, crate::names::RowId), VisibleTimeRanges)>>,
    active_timeline: &Timeline,
) -> (r: Option<TimeRange>)
    ensures
        r == match ranges {
            PromiseResult::Ready(Some((_, ranges))) => range_for(
                ranges@,
                active_timeline.name@,
            ),
            _ => None,
        },
{
    match ranges.ok() {
        Some(Some((_, ranges))) => ranges.range_for_timeline(active_timeline.name.text),
        _ => None,
    }
}

impl SpaceViewBlueprint {
    /// The properties of the view that are not components of their own.
    pub fn legacy_properties(&self, blueprint: &EntityDb, blueprint_query: &LatestAtQuery) -> (r:
        EntityProperties)
        requires
            blueprint.wf(),
        ensures
            r == match properties_at(
                blueprint@.store,
                *blueprint_query,
                hash_of(property_parts(self.id, individual_overrides())),
            ) {
                Some(properties) => properties,
                None => EntityProperties::default_spec(),
            },
    {
        let path = property_path(self.id, "individual_overrides");
        match find_properties(blueprint, blueprint_query, &path) {
            Some(properties) => properties,
            None => EntityProperties::default(),
        }
    }

    /// What to write to save the properties of the view that are not components of their own.
    pub fn save_legacy_properties(&self, props: EntityProperties) -> (r: BlueprintWrite)
        ensures
            entity_path_parts(r.entity_path) == property_parts(self.id, individual_overrides()),
            r.value matches BlueprintValue::Component(
                component,
                CellValue::EntityProperties(properties),
            ) && component@ == "rerun.controls.EntityProperties"@ && properties == props,
    {
        BlueprintWrite {
            entity_path: property_path(self.id, "individual_overrides"),
            value: BlueprintValue::Component(
                entity_properties_name(),
                CellValue::EntityProperties(props),
            ),
        }
    }

    /// Which part of a timeline the view shows: what is kept for it, or what its class does.
    pub fn query_range(
        &self,
        blueprint: &EntityDb,
        blueprint_query: &LatestAtQuery,
        active_timeline: &Timeline,
        space_view_class_registry: &SpaceViewClassRegistry,
    ) -> (r: QueryRange)
        requires
            blueprint.wf(),
        ensures
            r == range_or(
                time_range_at(
                    blueprint@.store,
                    *blueprint_query,
                    hash_of(property_parts(self.id, "VisibleTimeRanges"@)),
                    active_timeline.name@,
                ),
                space_view_class_registry.class_of(
                    self.class_identifier@,
                ).default_query_range,
            ),
    {
        let (ranges, _) = query_view_property::<VisibleTimeRanges>(
            self.id,
            visible_time_ranges_short_name(),
            blueprint,
            blueprint_query,
        );
        match range_in(ranges, active_timeline) {
            Some(range) => QueryRange::TimeRange(range),
            None => self.class(space_view_class_registry).default_query_range,
        }
    }
}

// --- What each visualizer has to show.

/// Whether a visualizer shows an entity.
pub open spec fn shows(results: Seq<ResultView>, system: Seq<char>, path: EntityPath) -> bool {
    exists|i: int| 0 <= i < results.len() && #[trigger] result_shows(results[i], system, path)
}

pub open spec fn result_shows(result: ResultView, system: Seq<char>, path: EntityPath) -> bool {
    entity_path_hash(result.path) == entity_path_hash(path) && names_contain(
        result.visualizers,
        system,
    )
}

impl PerVisualizer {
    /// Lists an entity for a visualizer.
    fn list(&mut self, system: ViewSystemIdentifier, path: &EntityPath)
        requires
            old(self).wf(),
        ensures
            final(self).wf(),
            forall|s: Seq<char>, p: EntityPath| #[trigger]
                is_listed_for(final(self).entries@, s, p) <==> is_listed_for(
                    old(self).entries@,
                    s,
                    p,
                ) || (s == system@ && entity_path_hash(p) == entity_path_hash(*path)),
    {
        let ghost before = self.entries@;
        let mut i: usize = 0;
        while i < self.entries.len()
            invariant
                i <= self.entries@.len(),
                self.entries@ == before,
                before == old(self).entries@,
                without_repeats(before),
                forall|j: int| 0 <= j < i ==> (#[trigger] before[j]).0@ != system@,
            decreases self.entries@.len() - i,
        {
            if self.entries[i].0.is(&system) {
                if !is_one_of_paths(path, &self.entries[i].1) {
                    self.entries[i].1.push(clone_path(path));
                    proof {
                        let after = self.entries@;
                        assert(after[i as int].1@ == before[i as int].1@.push(*path));
                        assert(forall|j: int|
                            0 <= j < before.len() && j != i ==> #[trigger] after[j] == before[j]);
                        assert forall|s: Seq<char>, p: EntityPath| #[trigger]
                            is_listed_for(after, s, p) <==> is_listed_for(before, s, p) || (s
                                == system@ && entity_path_hash(p) == entity_path_hash(*path)) by {
                            lemma_listed_more(before, after, i as int, *path, s, p);
                        }
                    }
                } else {
                    proof {
                        assert forall|p: EntityPath|
                            entity_path_hash(p) == entity_path_hash(*path) implies #[trigger]
                            is_listed_for(before, system@, p) by {
                            assert(paths_contain(before[i as int].1@, p));
                        }
                    }
                }
                return;
            }
            i += 1;
        }
        let mut paths: Vec<EntityPath> = Vec::new();
        paths.push(clone_path(path));
        self.entries.push((system, paths));
        proof {
            let after = self.entries@;
            assert forall|s: Seq<char>, p: EntityPath| #[trigger]
                is_listed_for(after, s, p) <==> is_listed_for(before, s, p) || (s == system@
                    && entity_path_hash(p) == entity_path_hash(*path)) by {
                if is_listed_for(before, s, p) {
                    let k = choose|k: int|
                        0 <= k < before.len() && (#[trigger] before[k]).0@ == s && paths_contain(
                            before[k].1@,
                            p,
                        );
                    assert(after[k] == before[k]);
                }
                if s == system@ && entity_path_hash(p) == entity_path_hash(*path) {
                    assert(entity_path_hash(paths@[0]) == entity_path_hash(p));
                    assert(paths_contain(after[before.len() as int].1@, p));
                }
                if is_listed_for(after, s, p) {
                    let k = choose|k: int|
                        0 <= k < after.len() && (#[trigger] after[k]).0@ == s && paths_contain(
                            after[k].1@,
                            p,
                        );
                    if k < before.len() {
                        assert(after[k] == before[k]);
                    }
                }
            }
        }
    }
}

proof fn lemma_listed_more(
    before: Seq<(ViewSystemIdentifier, Vec<EntityPath>)>,
    after: Seq<(ViewSystemIdentifier, Vec<EntityPath>)>,
    i: int,
    path: EntityPath,
    s: Seq<char>,
    p: EntityPath,
)
    requires
        0 <= i < before.len(),
        after.len() == before.len(),
        after[i].0 == before[i].0,
        after[i].1@ == before[i].1@.push(path),
        forall|j: int| 0 <= j < before.len() && j != i ==> #[trigger] after[j] == before[j],
    ensures
        is_listed_for(after, s, p) <==> is_listed_for(before, s, p) || (s == before[i].0@
            && entity_path_hash(p) == entity_path_hash(path)),
{
    let old_paths = before[i].1@;
    let new_paths = after[i].1@;
    assert(paths_contain(new_paths, p) <==> paths_contain(old_paths, p) || entity_path_hash(p)
        == entity_path_hash(path)) by {
        if paths_contain(old_paths, p) {
            let k = choose|k: int|
                0 <= k < old_paths.len() && entity_path_hash(#[trigger] old_paths[k])
                    == entity_path_hash(p);
            assert(new_paths[k] == old_paths[k]);
        }
        if entity_path_hash(p) == entity_path_hash(path) {
            assert(new_paths[old_paths.len() as int] == path);
        }
        if paths_contain(new_paths, p) {
            let k = choose|k: int|
                0 <= k < new_paths.len() && entity_path_hash(#[trigger] new_paths[k])
                    == entity_path_hash(p);
            if k < old_paths.len() {
                assert(new_paths[k] == old_paths[k]);
            }
        }
    }
    if is_listed_for(before, s, p) {
        let k = choose|k: int|
            0 <= k < before.len() && (#[trigger] before[k]).0@ == s && paths_contain(
                before[k].1@,
                p,
            );
        assert(after[k].0@ == s && paths_contain(after[k].1@, p));
    }
    if is_listed_for(after, s, p) {
        let k = choose|k: int|
            0 <= k < after.len() && (#[trigger] after[k]).0@ == s && paths_contain(after[k].1@, p);
        if k != i {
            assert(before[k] == after[k]);
        } else {
            assert(before[k].0@ == s);
        }
    }
    if s == before[i].0@ && entity_path_hash(p) == entity_path_hash(path) {
        assert(after[i].0@ == s && paths_contain(after[i].1@, p));
    }
}

impl SpaceViewBlueprint {
    /// What each visualizer has to show, at the start of a frame.
    pub fn on_frame_start(&self, query_result: &DataQueryResult) -> (r: PerVisualizer)
        requires
            query_result.tree.wf(),
        ensures
            r.wf(),
            forall|system: Seq<char>, path: EntityPath| #[trigger]
                is_listed_for(r.entries@, system, path) <==> shows(
                    results_of(query_result.tree@),
                    system,
                    path,
                ),
    {
        let results = query_result.tree.visit();
        let ghost listed = results_of(query_result.tree@);
        let mut entities = PerVisualizer::new();
        let mut i: usize = 0;
        while i < results.len()
            invariant
                i <= results@.len(),
                listed == crate::query::result_views(results@),
                entities.wf(),
                forall|system: Seq<char>, path: EntityPath| #[trigger]
                    is_listed_for(entities.entries@, system, path) <==> shows(
                        listed.take(i as int),
                        system,
                        path,
                    ),
            decreases results@.len() - i,
        {
            let result = results[i];
            let systems = systems_of(&result.visualizers);
            let ghost before = entities.entries@;
            let mut s: usize = 0;
            while s < systems.len()
                invariant
                    s <= systems@.len(),
                    entities.wf(),
                    forall|system: Seq<char>, path: EntityPath| #[trigger]
                        is_listed_for(entities.entries@, system, path) <==> is_listed_for(
                            before,
                            system,
                            path,
                        ) || (entity_path_hash(path) == entity_path_hash(result.entity_path)
                            && names_contain(systems@.take(s as int), system)),
                decreases systems@.len() - s,
            {
                entities.list(systems[s], &result.entity_path);
                proof {
                    let seen = systems@.take(s as int);
                    let more = systems@.take(s + 1);
                    assert forall|system: Seq<char>| #[trigger]
                        names_contain(more, system) <==> names_contain(seen, system) || system
                            == systems@[s as int]@ by {
                        if names_contain(seen, system) {
                            let k = choose|k: int|
                                0 <= k < seen.len() && (#[trigger] seen[k])@ == system;
                            assert(more[k] == seen[k]);
                        }
                        if system == systems@[s as int]@ {
                            assert(more[s as int]@ == system);
                        }
                        if names_contain(more, system) {
                            let k = choose|k: int|
                                0 <= k < more.len() && (#[trigger] more[k])@ == system;
                            if k < s {
                                assert(seen[k] == more[k]);
                            }
                        }
                    }
                }
                s += 1;
            }
            proof {
                assert(systems@.take(s as int) =~= systems@);
                assert(listed[i as int] == result@);
                let seen = listed.take(i as int);
                let more = listed.take(i + 1);
                assert forall|system: Seq<char>, path: EntityPath| #[trigger]
                    shows(more, system, path) <==> shows(seen, system, path) || result_shows(
                        result@,
                        system,
                        path,
                    ) by {
                    if shows(seen, system, path) {
                        let k = choose|k: int|
                            0 <= k < seen.len() && #[trigger] result_shows(seen[k], system, path);
                        assert(more[k] == seen[k]);
                    }
                    if result_shows(result@, system, path) {
                        assert(more[i as int] == result@);
                    }
                    if shows(more, system, path) {
                        let k = choose|k: int|
                            0 <= k < more.len() && #[trigger] result_shows(more[k], system, path);
                        if k < i {
                            assert(seen[k] == more[k]);
                        }
                    }
                }
            }
            i += 1;
        }
        assert(listed.take(i as int) =~= listed);
        entities
    }
}

// --- Duplicating.

/// A row that is still to be written, but for its id.
#[verifier::ext_equal]
pub struct CopiedRow {
    pub times: Seq<(Timeline, TimeInt)>,
    pub parts: Seq<Seq<char>>,
    pub cells: Seq<DataCell>,
}

/// Whether a component is one of those that the view itself is saved as.
pub open spec fn is_view_component(component: Seq<char>) -> bool {
    <SavedSpaceView as Archetype>::component_names().contains(component)
}

/// The latest cells of some components. Of the view itself, those that it is saved as are left out:
/// they are written separately, and may be different.
pub open spec fn copied_cells(
    store: StoreView,
    query: LatestAtQuery,
    hash: u64,
    components: Seq<ComponentName>,
    is_view: bool,
) -> Seq<DataCell>
    decreases components.len(),
{
    if components.len() == 0 {
        Seq::empty()
    } else {
        let rest = copied_cells(store, query, hash, components.drop_last(), is_view);
        let component = components.last()@;
        if is_view && is_view_component(component) {
            rest
        } else {
            match latest_entry(store, query, hash, component) {
                Some(entry) => rest.push(entry.cell),
                None => rest,
            }
        }
    }
}

/// The rows that make up a copy of everything about a view.
pub open spec fn copied_rows(
    store: StoreView,
    query: LatestAtQuery,
    visited: Seq<VisitedView>,
    from: SpaceViewId,
    to: SpaceViewId,
    times: Seq<(Timeline, TimeInt)>,
) -> Seq<CopiedRow>
    decreases visited.len(),
{
    if visited.len() == 0 {
        Seq::empty()
    } else {
        let rest = copied_rows(store, query, visited.drop_last(), from, to, times);
        let entity = visited.last();
        let cells = copied_cells(
            store,
            query,
            entity_path_hash(entity.path),
            entity.components,
            entity_path_hash(entity.path) == hash_of(view_parts(from)),
        );
        if cells.len() > 0 && components_distinct(cells) {
            rest.push(
                CopiedRow {
                    times,
                    parts: view_parts(to) + entity_path_parts(entity.path).skip(
                        view_parts(from).len() as int,
                    ),
                    cells,
                },
            )
        } else {
            rest
        }
    }
}

/// Everything about a view, entity by entity.
pub open spec fn entities_of_view(tree: EntityTree, id: SpaceViewId) -> Seq<VisitedView> {
    match node_at(tree, view_parts(id), 0) {
        Some(node) => listed(node),
        None => Seq::empty(),
    }
}

pub open spec fn copied_views(rows: Seq<DataRow>) -> Seq<CopiedRow> {
    Seq::new(
        rows.len(),
        |i: int|
            CopiedRow {
                times: rows[i].timepoint.times@,
                parts: entity_path_parts(rows[i].entity_path),
                cells: rows[i].cells@,
            },
    )
}

/// All paths in a tree are at least as long as the one that leads to it.
proof fn lemma_listed_paths(tree: EntityTree, parts: Seq<Seq<char>>)
    requires
        paths_lead(tree, parts),
    ensures
        forall|i: int|
            0 <= i < listed(tree).len() ==> parts.len() <= entity_path_parts(
                (#[trigger] listed(tree)[i]).path,
            ).len(),
    decreases tree, tree.children@.len() + 1,
{
    crate::tree::lemma_paths_lead(tree, parts);
    lemma_listed_paths_below(tree, tree.children@, parts);
    assert forall|i: int| 0 <= i < listed(tree).len() implies parts.len() <= entity_path_parts(
        (#[trigger] listed(tree)[i]).path,
    ).len() by {
        if i > 0 {
            assert(listed(tree)[i] == listed_children(tree.children@)[i - 1]);
        }
    }
}

proof fn lemma_listed_paths_below(
    tree: EntityTree,
    children: Seq<EntityTree>,
    parts: Seq<Seq<char>>,
)
    requires
        forall|i: int| 0 <= i < children.len() ==> decreases_to!(tree => #[trigger] children[i]),
        forall|i: int|
            0 <= i < children.len() ==> paths_lead(
                #[trigger] children[i],
                parts.push(children[i].name@),
            ),
    ensures
        forall|i: int|
            0 <= i < listed_children(children).len() ==> parts.len() <= entity_path_parts(
                (#[trigger] listed_children(children)[i]).path,
            ).len(),
    decreases tree, children.len(),
{
    if children.len() > 0 {
        let rest = children.drop_last();
        assert forall|i: int| 0 <= i < rest.len() implies decreases_to!(tree => #[trigger] rest[i]) by {
            assert(rest[i] == children[i]);
        }
        assert forall|i: int| 0 <= i < rest.len() implies paths_lead(
            #[trigger] rest[i],
            parts.push(rest[i].name@),
        ) by {
            assert(rest[i] == children[i]);
        }
        lemma_listed_paths_below(tree, rest, parts);
        let last = children[children.len() - 1];
        lemma_listed_paths(last, parts.push(last.name@));
        let n = listed_children(rest).len() as int;
        let all = listed_children(children);
        assert forall|i: int| 0 <= i < all.len() implies parts.len() <= entity_path_parts(
            (#[trigger] all[i]).path,
        ).len() by {
            if i < n {
                assert(all[i] == listed_children(rest)[i]);
            } else {
                assert(all[i] == listed(last)[i - n]);
            }
        }
    }
}

impl EntityDb {
    /// The latest cells of some components. Of a view itself, those that it is saved as are left
    /// out.
    fn copy_cells(
        &self,
        query: &LatestAtQuery,
        path: &EntityPath,
        components: &Vec<ComponentName>,
        is_view: bool,
    ) -> (r: Vec<DataCell>)
        requires
            self.wf(),
        ensures
            r@ == copied_cells(
                self@.store,
                *query,
                entity_path_hash(*path),
                components@,
                is_view,
            ),
    {
        let view_components = space_view_blueprint_components();
        proof {
            let names = <SavedSpaceView as Archetype>::component_names();
            assert forall|component: Seq<char>| #[trigger]
                names_contain(view_components@, component) <==> is_view_component(component) by {
                if names_contain(view_components@, component) {
                    let k = choose|k: int|
                        0 <= k < view_components@.len() && (#[trigger] view_components@[k])@
                            == component;
                    assert(names[k] == component);
                }
                if names.contains(component) {
                    let k = choose|k: int| 0 <= k < names.len() && names[k] == component;
                    assert(view_components@[k]@ == component);
                }
            }
        }
        let mut cells: Vec<DataCell> = Vec::new();
        let mut i: usize = 0;
        while i < components.len()
            invariant
                i <= components@.len(),
                self.wf(),
                forall|component: Seq<char>| #[trigger]
                    names_contain(view_components@, component) <==> is_view_component(component),
                cells@ == copied_cells(
                    self@.store,
                    *query,
                    entity_path_hash(*path),
                    components@.take(i as int),
                    is_view,
                ),
            decreases components@.len() - i,
        {
            assert(components@.take(i + 1).drop_last() =~= components@.take(i as int));
            if !is_view || !is_one_of(&components[i], &view_components) {
                if let Some((_, _, cell)) = self.data_store.latest_at(query, path, &components[i]) {
                    cells.push(cell);
                }
            }
            i += 1;
        }
        assert(components@.take(i as int) =~= components@);
        cells
    }
}

impl SpaceViewBlueprint {
    /// The same view under another identity, with everything about it still to be written.
    pub fn duplicate_as(
        &self,
        new_id: SpaceViewId,
        blueprint: &EntityDb,
        timepoint: &TimePoint,
        query: &LatestAtQuery,
    ) -> (r: SpaceViewBlueprint)
        requires
            blueprint.wf(),
            timepoint.wf(),
        ensures
            r.id == new_id,
            text_of(r.display_name) == text_of(self.display_name),
            r.class_identifier == self.class_identifier,
            r.space_origin == self.space_origin,
            entity_path_parts(r.contents.blueprint_entity_path) == property_parts(
                new_id,
                "SpaceViewContents"@,
            ),
            r.contents.space_view_class_identifier == self.class_identifier,
            r.contents.entity_path_filter@ == self.contents.entity_path_filter@,
            r.contents.entity_path_filter.is_settled()
                == self.contents.entity_path_filter.is_settled(),
            r.visible == self.visible,
            copied_views(r.pending_writes@) == copied_rows(
                blueprint@.store,
                *query,
                entities_of_view(blueprint.tree, self.id),
                self.id,
                new_id,
                timepoint.times@,
            ),
            forall|i: int|
                0 <= i < r.pending_writes@.len() ==> (#[trigger] r.pending_writes@[i]).wf(),
    {
        let mut pending_writes: Vec<DataRow> = Vec::new();
        let current_path = self.entity_path();
        let current_hash: u64 = settled_hash(&current_path);
        let new_path = new_id.as_entity_path();
        let ghost entities = entities_of_view(blueprint.tree, self.id);
        assert(copied_views(pending_writes@) =~= Seq::empty());
        if let Some(tree) = blueprint.tree().subtree(&current_path) {
            let visited = tree.visit_children_recursively();
            proof {
                lemma_listed_paths(*tree, view_parts(self.id));
            }
            let mut i: usize = 0;
            assert(entities.take(0) =~= Seq::empty());
            while i < visited.len()
                invariant
                    i <= visited@.len(),
                    blueprint.wf(),
                    timepoint.wf(),
                    current_hash == hash_of(view_parts(self.id)),
                    entity_path_parts(current_path) == view_parts(self.id),
                    entity_path_hash(current_path) == current_hash,
                    entity_path_parts(new_path) == view_parts(new_id),
                    entities == crate::tree::visited_views(visited@),
                    forall|k: int|
                        0 <= k < entities.len() ==> view_parts(self.id).len()
                            <= entity_path_parts((#[trigger] entities[k]).path).len(),
                    copied_views(pending_writes@) == copied_rows(
                        blueprint@.store,
                        *query,
                        entities.take(i as int),
                        self.id,
                        new_id,
                        timepoint.times@,
                    ),
                    forall|k: int|
                        0 <= k < pending_writes@.len() ==> (#[trigger] pending_writes@[k]).wf(),
                decreases visited@.len() - i,
            {
                let ghost before = pending_writes@;
                let path = &visited[i].path;
                proof {
                    assert(entities.take(i + 1).drop_last() =~= entities.take(i as int));
                    assert(entities[i as int] == visited@[i as int]@);
                    assert(view_parts(self.id).len() <= entity_path_parts(
                        entities[i as int].path,
                    ).len());
                }
                let sub_path = join_path(&new_path, &path_suffix(path, path_len(&current_path)));
                let is_view = same_path(path, &current_path);
                let cells = blueprint.copy_cells(query, path, &visited[i].components, is_view);
                if let Ok(row) = DataRow::from_cells(
                    crate::ingest::new_row_id(),
                    timepoint.clone(),
                    sub_path,
                    cells,
                ) {
                    if row.num_cells() > 0 {
                        pending_writes.push(row);
                        assert(copied_views(pending_writes@) =~= copied_views(before).push(
                            CopiedRow {
                                times: timepoint.times@,
                                parts: entity_path_parts(sub_path),
                                cells: cells@,
                            },
                        ));
                    }
                }
                i += 1;
            }
            assert(entities.take(i as int) =~= entities);
        }
        let display_name = match &self.display_name {
            Some(name) => Some(name.clone()),
            None => None,
        };
        SpaceViewBlueprint {
            id: new_id,
            display_name,
            class_identifier: self.class_identifier,
            space_origin: clone_path(&self.space_origin),
            contents: SpaceViewContents::new(
                new_id,
                self.class_identifier,
                self.contents.entity_path_filter.clone(),
            ),
            visible: self.visible,
            pending_writes,
        }
    }

    /// The same view under a new identity, with everything about it still to be written.
    pub fn duplicate(&self, blueprint: &EntityDb, timepoint: &TimePoint, query: &LatestAtQuery)
        -> (r: SpaceViewBlueprint)
        requires
            blueprint.wf(),
            timepoint.wf(),
        ensures
            exists|bits: u128| r.id == #[trigger] SpaceViewId::from_random_spec(bits),
            text_of(r.display_name) == text_of(self.display_name),
            r.class_identifier == self.class_identifier,
            r.space_origin == self.space_origin,
            entity_path_parts(r.contents.blueprint_entity_path) == property_parts(
                r.id,
                "SpaceViewContents"@,
            ),
            r.contents.space_view_class_identifier == self.class_identifier,
            r.contents.entity_path_filter@ == self.contents.entity_path_filter@,
            r.contents.entity_path_filter.is_settled()
                == self.contents.entity_path_filter.is_settled(),
            r.visible == self.visible,
            copied_views(r.pending_writes@) == copied_rows(
                blueprint@.store,
                *query,
                entities_of_view(blueprint.tree, self.id),
                self.id,
                r.id,
                timepoint.times@,
            ),
    {
        self.duplicate_as(SpaceViewId::random(), blueprint, timepoint, query)
    }
}

// --- What reading gives back.

/// Whether a store holds what is to be written to the blueprint.
pub open spec fn holds(store: StoreView, query: LatestAtQuery, write: BlueprintWrite) -> bool {
    let hash = hash_of(entity_path_parts(write.entity_path));
    let cell = |component: Seq<char>| full_cell(latest_entry(store, query, hash, component));
    match write.value {
        BlueprintValue::SpaceView { class_identifier, display_name, space_origin, visible } => {
            &&& cell("rerun.blueprint.components.SpaceViewClass"@) matches Some(found)
                && *found.value == CellValue::SpaceViewClass(class_identifier)
            &&& saved_name(cell("rerun.components.Name"@)) == Ok::<_, AssemblyError>(
                text_of(display_name),
            )
            &&& saved_origin(cell("rerun.blueprint.components.SpaceViewOrigin"@)) == Ok::<
                _,
                AssemblyError,
            >(Some(space_origin@))
            &&& saved_visible(cell("rerun.blueprint.components.Visible"@)) == Ok::<
                _,
                AssemblyError,
            >(Some(visible))
        },
        BlueprintValue::Contents(query) => match cell(
            "rerun.blueprint.components.QueryExpression"@,
        ) {
            Some(found) => *found.value matches CellValue::QueryExpressions(saved)
                && string_views(saved@) == string_views(query@),
            None => query@.len() == 0,
        },
        BlueprintValue::Component(name, value) => cell(name@) matches Some(found)
            && *found.value == value,
        BlueprintValue::EmptyComponent(name) => cell(name@) is None,
    }
}

/// Law: a view that was saved is read back as it was.
pub proof fn law_saved_views_are_read_back(
    view: SpaceViewBlueprint,
    update: SpaceViewUpdate,
    store: StoreView,
    query: LatestAtQuery,
)
    requires
        view.is_in_place(),
        is_readable(entity_path_parts(view.space_origin)),
        saves(view, update),
        holds(store, query, update.contents),
        holds(store, query, update.space_view),
    ensures
        saved_view(store, query, view.id) == Some(view.state()),
{
    let hash = hash_of(view_parts(view.id));
    let names = SavedSpaceView::component_names();
    let found = latest_entries(store, query, hash, names);
    assert(names[0] == "rerun.blueprint.components.SpaceViewClass"@);
    assert(names[2] == "rerun.blueprint.components.SpaceViewOrigin"@);
    assert(names[3] == "rerun.blueprint.components.Visible"@);
    assert(names[4] == "rerun.components.Name"@);
    assert(found[0] == latest_entry(store, query, hash, names[0]));
    assert(found[2] == latest_entry(store, query, hash, names[2]));
    assert(found[3] == latest_entry(store, query, hash, names[3]));
    assert(found[4] == latest_entry(store, query, hash, names[4]));
    let parts = property_parts(view.id, "SpaceViewContents"@);
    let rules = SavedContents::component_names();
    let saved = latest_entries(store, query, hash_of(parts), rules);
    assert(rules[1] == "rerun.blueprint.components.QueryExpression"@);
    assert(saved[1] == latest_entry(store, query, hash_of(parts), rules[1]));
    let written = expressions(view.contents.entity_path_filter@);
    assert(saved_rules(store, query, view.id) =~= written) by {
        if let BlueprintValue::Contents(texts) = update.contents.value {
            if texts@.len() == 0 {
                assert(string_views(texts@) =~= Seq::empty());
            }
        }
    }
    assert(saved_view(store, query, view.id)->0 =~= view.state());
}

// --- What a view without a name is called.

/// Parts of a path with slashes in between.
pub open spec fn joined(parts: Seq<Seq<char>>) -> Seq<char>
    decreases parts.len(),
{
    if parts.len() == 0 {
        Seq::empty()
    } else if parts.len() == 1 {
        parts[0]
    } else {
        parts[0] + seq!['/'] + joined(parts.skip(1))
    }
}

/// The last parts of a path with slashes in between.
pub open spec fn last_joined(parts: Seq<Seq<char>>, k: int) -> Seq<char> {
    joined(parts.skip(parts.len() - k))
}

/// Whether a name is made of the last parts of a path: of all of them, or of as few as it takes to
/// have more than ten bytes, with an ellipsis in front.
pub open spec fn is_short_for(name: Seq<char>, parts: Seq<Seq<char>>, k: int) -> bool {
    &&& 1 <= k <= parts.len()
    &&& name == if k == parts.len() {
        last_joined(parts, k)
    } else {
        seq!['\u{2026}', '/'] + last_joined(parts, k)
    }
    &&& k < parts.len() ==> encode_utf8(last_joined(parts, k)).len() > 10
    &&& forall|j: int|
        1 <= j < k ==> encode_utf8(#[trigger] last_joined(parts, j)).len() <= 10
}

proof fn lemma_joined_not_empty(parts: Seq<Seq<char>>)
    requires
        parts.len() > 0,
        parts[0].len() > 0,
    ensures
        joined(parts).len() > 0,
{
}

proof fn lemma_shortened(parts: Seq<Seq<char>>, m: int) -> (k: int)
    requires
        0 <= m <= parts.len(),
        parts.len() > 0,
        forall|i: int| 0 <= i < parts.len() ==> (#[trigger] parts[i]).len() > 0,
        forall|j: int|
            1 <= j < parts.len() - m ==> encode_utf8(#[trigger] last_joined(parts, j)).len() <= 10,
    ensures
        is_short_for(
            shortened(parts.take(m), last_joined(parts, parts.len() - m)),
            parts,
            k,
        ),
    decreases m,
{
    let n = parts.len() as int;
    let text = last_joined(parts, n - m);
    if m == 0 {
        n
    } else {
        if m == n {
            assert(parts.skip(m) =~= Seq::empty());
            assert(text =~= Seq::empty());
            assert(encode_utf8(text).len() == 0);
        }
        if encode_utf8(text).len() > 10 {
            n - m
        } else {
            let rest = parts.skip(m - 1);
            assert(parts.take(m).drop_last() =~= parts.take(m - 1));
            assert(rest.skip(1) =~= parts.skip(m));
            assert(rest[0] == parts[m - 1]);
            if m < n {
                assert(parts.skip(m)[0] == parts[m]);
                lemma_joined_not_empty(parts.skip(m));
            }
            assert(last_joined(parts, n - m + 1) =~= parts.take(m).last() + (if text.len() == 0 {
                Seq::empty()
            } else {
                seq!['/']
            }) + text);
            lemma_shortened(parts, m - 1)
        }
    }
}

/// Law: a view without a name is called after its origin: by the whole path if it is short, and
/// else by as few of its last parts as it takes to have more than ten bytes. A view of the root is
/// called by a slash.
pub proof fn law_views_are_called_after_their_origin(parts: Seq<Seq<char>>)
    requires
        forall|i: int| 0 <= i < parts.len() ==> (#[trigger] parts[i]).len() > 0,
    ensures
        parts.len() == 0 ==> placeholder_name(parts) == seq!['/'],
        parts.len() > 0 ==> exists|k: int| is_short_for(placeholder_name(parts), parts, k),
{
    let n = parts.len() as int;
    if n > 0 {
        assert(parts.take(n) =~= parts);
        assert(parts.skip(n) =~= Seq::empty());
        let k = lemma_shortened(parts, n);
        assert(last_joined(parts, 0) =~= Seq::empty());
        let text = shortened(parts, Seq::empty());
        assert(parts.skip(n - k)[0] == parts[n - k]);
        lemma_joined_not_empty(parts.skip(n - k));
        assert(text.len() > 0);
        assert(is_short_for(placeholder_name(parts), parts, k));
    }
}

} // verus!

use entity_store::archetypes::{PromiseResult, SavedContents, SavedSpaceView, VisibleTimeRanges};
use entity_store::classes::{DefaultVisualizers, SpaceViewClass, SpaceViewClassRegistry};
use entity_store::components::entity_properties_name;
use entity_store::contents::{BlueprintValue, BlueprintWrite, SpaceViewContents};
use entity_store::data_result::{QueryRange, TimeRange};
use entity_store::entity_db::EntityDb;
use entity_store::filter::{EntityPathRule, PathFilter};
use entity_store::names::{
    InternedStr, RowId, StoreId, StoreKind, TimeInt, TimeType, Timeline,
};
use entity_store::overrides::EntityPropertyMap;
use entity_store::query::PerVisualizer;
use entity_store::row::{
    CellValue, DataCell, DataRow, DataType, EditableAutoValue, EntityProperties, TimePoint,
    TimeRangeBoundary, VisibleTimeRange,
};
use entity_store::space_view::{
    ContentsName, RecommendedSpaceView, SpaceViewBlueprint, SpaceViewUpdate,
};
use entity_store::store::LatestAtQuery;
use entity_store::view_id::SpaceViewId;
use re_log_types::{EntityPath, EntityPathSubs};

const CLASS: &str = "rerun.blueprint.components.SpaceViewClass";
const ORIGIN: &str = "rerun.blueprint.components.SpaceViewOrigin";
const VISIBLE: &str = "rerun.blueprint.components.Visible";
const NAME: &str = "rerun.components.Name";
const QUERY: &str = "rerun.blueprint.components.QueryExpression";
const VISUALIZERS: &str = "rerun.components.VisualizerOverrides";
const RANGES: &str = "rerun.blueprint.components.VisibleTimeRange";

fn blueprint() -> EntityDb {
    EntityDb::new(StoreId::from_string(StoreKind::Blueprint, "test".to_owned()))
}

fn recording() -> EntityDb {
    EntityDb::new(StoreId::from_string(StoreKind::Recording, "test".to_owned()))
}

fn timeline() -> Timeline {
    Timeline::new("blueprint", TimeType::Sequence)
}

fn frame() -> Timeline {
    Timeline::new("frame", TimeType::Sequence)
}

fn latest() -> LatestAtQuery {
    LatestAtQuery::latest(timeline())
}

fn now(value: i64) -> TimePoint {
    let mut timepoint = TimePoint::timeless();
    timepoint.put_latest(timeline(), TimeInt::new_temporal(value));
    timepoint
}

fn cell(name: &'static str, value: CellValue) -> DataCell {
    let datatype = DataType { id: 1, empty_size_bytes: 8 };
    DataCell::new(InternedStr::new(name), 1, 32, datatype, value)
}

fn empty_cell(name: &'static str) -> DataCell {
    DataCell::from_arrow_empty(InternedStr::new(name), DataType { id: 1, empty_size_bytes: 8 })
}

fn log(db: &mut EntityDb, path: &EntityPath, timepoint: TimePoint, cells: Vec<DataCell>) {
    let row_id = RowId { bits: re_log_types::RowId::new().as_u128() };
    let row = DataRow::from_cells(row_id, timepoint, path.clone(), cells).unwrap();
    db.add_data_row(row).unwrap();
}

fn strings(texts: &[&str]) -> Vec<String> {
    texts.iter().map(|text| (*text).to_owned()).collect()
}

/// Writes to the blueprint, as whoever owns it would.
fn write(db: &mut EntityDb, time: i64, write: BlueprintWrite) {
    let cells = match write.value {
        BlueprintValue::SpaceView { class_identifier, display_name, space_origin, visible } => {
            let mut cells = vec![
                cell(CLASS, CellValue::SpaceViewClass(class_identifier)),
                cell(ORIGIN, CellValue::SpaceViewOrigin(space_origin)),
                cell(VISIBLE, CellValue::Visible(visible)),
            ];
            if let Some(name) = display_name {
                cells.push(cell(NAME, CellValue::Name(name)));
            }
            cells
        }
        BlueprintValue::Contents(query) => vec![cell(QUERY, CellValue::QueryExpressions(query))],
        BlueprintValue::Component(name, value) => vec![cell(name.text, value)],
        BlueprintValue::EmptyComponent(name) => vec![empty_cell(name.text)],
    };
    log(db, &write.entity_path, now(time), cells);
}

fn save(db: &mut EntityDb, time: i64, update: SpaceViewUpdate) {
    write(db, time, update.contents);
    for row in update.rows {
        db.add_data_row(row).unwrap();
    }
    write(db, time, update.space_view);
}

fn view(origin: &str, query: &[&str]) -> SpaceViewBlueprint {
    let recommended = RecommendedSpaceView::new(EntityPath::from(origin), &strings(query));
    SpaceViewBlueprint::new(InternedStr::new("3D"), recommended)
}

fn rules(contents: &SpaceViewContents) -> Vec<String> {
    contents.entity_path_filter.to_expressions()
}

fn filter(text: &str) -> PathFilter {
    let lines: Vec<String> = text.split('\n').map(|line| line.to_owned()).collect();
    PathFilter::from_query_expressions(&lines, &Default::default())
}

fn contents(text: &str) -> SpaceViewContents {
    let id = SpaceViewId::from_random(7);
    SpaceViewContents::new(id, InternedStr::new("3D"), filter(text))
}

fn written_rules(write: Option<BlueprintWrite>) -> Option<Vec<String>> {
    write.map(|write| match write.value {
        BlueprintValue::Component(name, CellValue::QueryExpressions(query)) => {
            assert_eq!(name.text, QUERY);
            query
        }
        _ => panic!("not rules"),
    })
}

fn entities_for(visualizer: &'static str, paths: &[&str]) -> PerVisualizer {
    PerVisualizer {
        entries: vec![(
            InternedStr::new(visualizer),
            paths.iter().map(|path| EntityPath::from(*path)).collect(),
        )],
    }
}

/// Everything up to now.
fn everything_so_far() -> QueryRange {
    QueryRange::TimeRange(TimeRange {
        start: TimeRangeBoundary::Infinite,
        end: TimeRangeBoundary::CursorRelative(0),
    })
}

// --- Identifiers.

#[test]
fn identifiers_are_written_out() {
    let id = SpaceViewId { bits: 0x0123_4567_89ab_cdef_0123_4567_89ab_cdef };
    assert_eq!(id.text(), "01234567-89ab-cdef-0123-456789abcdef");
    let path = id.as_entity_path();
    assert_eq!(path.len(), 2);
    assert_eq!(path.to_string(), "/space_view/01234567-89ab-cdef-0123-456789abcdef");
    assert_eq!(SpaceViewId { bits: 0 }.text(), "00000000-0000-0000-0000-000000000000");
}

#[test]
fn random_identifiers_say_so() {
    assert_eq!(SpaceViewId::from_random(0).text(), "00000000-0000-4000-8000-000000000000");
    assert_eq!(SpaceViewId::from_random(u128::MAX).text(), "ffffffff-ffff-4fff-bfff-ffffffffffff");
    let a = SpaceViewId::random();
    let b = SpaceViewId::random();
    assert_ne!(a.text(), b.text());
    assert_ne!(a.as_entity_path(), b.as_entity_path());
    assert_eq!(a.text().as_bytes()[14], b'4');
    assert!(b"89ab".contains(&a.text().as_bytes()[19]));
    assert_eq!(SpaceViewId::from_random(a.bits).text(), a.text());
}

// --- Names.

#[test]
fn views_without_a_name_are_called_after_their_origin() {
    let name = |origin: &str| view(origin, &[]).missing_name_placeholder();
    assert_eq!(name("/"), "/");
    assert_eq!(name("world"), "world");
    assert_eq!(name("world/car"), "world/car");
    assert_eq!(name("a/b/c/d/e/f"), "a/b/c/d/e/f");
    assert_eq!(name("world/long_name/x"), "\u{2026}/long_name/x");
    assert_eq!(name("something_long"), "something_long");
    assert_eq!(name("root/something_long"), "\u{2026}/something_long");
}

#[test]
fn the_name_of_a_view_comes_first() {
    let mut view = view("world", &[]);
    assert!(matches!(view.display_name_or_default(), ContentsName::Placeholder(name) if name == "world"));
    view.display_name = Some("mine".to_owned());
    assert!(matches!(view.display_name_or_default(), ContentsName::Named(name) if name == "mine"));
}

// --- Saving and loading.

#[test]
fn saved_views_are_read_back() {
    let mut blueprint = blueprint();
    let mut view = view("world/car", &["+ $origin/**", "- world/car/wheel/**", "/other"]);
    view.display_name = Some("mine".to_owned());
    view.visible = false;
    assert!(SpaceViewBlueprint::try_from_db(view.id, &blueprint, &latest()).is_none());
    save(&mut blueprint, 1, view.save_to_blueprint_store());

    let read = SpaceViewBlueprint::try_from_db(view.id, &blueprint, &latest()).unwrap();
    assert_eq!(read.id.text(), view.id.text());
    assert_eq!(read.display_name.as_deref(), Some("mine"));
    assert!(read.class_identifier().is(&InternedStr::new("3D")));
    assert_eq!(read.space_origin, EntityPath::from("world/car"));
    assert!(!read.visible);
    assert!(read.pending_writes.is_empty());
    assert_eq!(rules(&read.contents), rules(&view.contents));
    assert!(read.contents.is_equivalent(&view.contents));
    assert_eq!(read.contents.blueprint_entity_path, view.contents.blueprint_entity_path);
    // Variables are filled in again.
    assert!(read.contents.entity_path_filter.is_included(&EntityPath::from("world/car/door")));
    assert!(!read.contents.entity_path_filter.is_included(&EntityPath::from("world/car/wheel/tire")));
    // And once more.
    save(&mut blueprint, 2, read.save_to_blueprint_store());
    let again = SpaceViewBlueprint::try_from_db(view.id, &blueprint, &latest()).unwrap();
    assert_eq!(rules(&again.contents), rules(&view.contents));
}

#[test]
fn defaults_fill_in_what_is_not_saved() {
    let mut blueprint = blueprint();
    let id = SpaceViewId::from_random(3);
    log(
        &mut blueprint,
        &id.as_entity_path(),
        now(1),
        vec![cell(CLASS, CellValue::SpaceViewClass(InternedStr::new("2D")))],
    );
    let read = SpaceViewBlueprint::try_from_db(id, &blueprint, &latest()).unwrap();
    assert!(read.display_name.is_none());
    assert_eq!(read.space_origin, EntityPath::root());
    assert!(read.visible);
    assert!(rules(&read.contents).is_empty());
}

#[test]
fn what_cannot_be_read_is_no_view() {
    let mut blueprint = blueprint();
    let id = SpaceViewId::from_random(3);
    let path = id.as_entity_path();
    log(&mut blueprint, &path, now(1), vec![cell(CLASS, CellValue::SpaceViewClass(InternedStr::new("2D")))]);
    log(&mut blueprint, &path, now(2), vec![cell(NAME, CellValue::Visible(true))]);
    assert!(SpaceViewBlueprint::try_from_db(id, &blueprint, &latest()).is_none());
    let asked = blueprint.latest_at_archetype::<SavedSpaceView>(&path, &latest());
    assert!(matches!(asked, PromiseResult::Error(component) if component.is(&InternedStr::new(NAME))));

    // Once the class was cleared there is nothing.
    log(&mut blueprint, &path, now(3), vec![empty_cell(CLASS)]);
    let asked = blueprint.latest_at_archetype::<SavedSpaceView>(&path, &latest());
    assert!(matches!(asked, PromiseResult::Ready(None)));
    assert!(SpaceViewBlueprint::try_from_db(id, &blueprint, &latest()).is_none());
}

#[test]
fn what_was_found_has_an_index() {
    let mut blueprint = blueprint();
    let path = SpaceViewId::from_random(3).as_entity_path();
    let asked = blueprint.latest_at_archetype::<SavedSpaceView>(&path, &latest());
    assert!(matches!(asked, PromiseResult::Ready(None)));
    log(&mut blueprint, &path, now(1), vec![cell(CLASS, CellValue::SpaceViewClass(InternedStr::new("2D")))]);
    log(&mut blueprint, &path, now(4), vec![cell(VISIBLE, CellValue::Visible(false))]);
    let asked = blueprint.latest_at_archetype::<SavedSpaceView>(&path, &latest());
    let ((time, row_id), saved) = asked.ok().unwrap().unwrap();
    assert_eq!(time.as_i64(), 4);
    assert_eq!(Some(row_id), blueprint.latest_row_id());
    assert_eq!(saved.visible, Some(false));
    assert!(saved.display_name.is_none());

    // Rules of the wrong kind are an error, no rules are none.
    let asked = blueprint.latest_at_archetype::<SavedContents>(&path, &latest());
    assert!(asked.ok().unwrap().unwrap().1.query.is_empty());
    log(&mut blueprint, &path, now(5), vec![cell(QUERY, CellValue::Other(1))]);
    let asked = blueprint.latest_at_archetype::<SavedContents>(&path, &latest());
    assert!(asked.ok().is_none());
    let pending: PromiseResult<u8> = PromiseResult::Pending;
    assert_eq!(pending.ok(), None);
}

#[test]
fn changes_are_written_only_if_there_are_any() {
    let mut view = view("world", &[]);
    let path = view.entity_path();
    assert!(view.set_display_name(None).is_none());
    let write = view.set_display_name(Some("mine".to_owned())).unwrap();
    assert_eq!(write.entity_path, path);
    assert!(matches!(write.value, BlueprintValue::Component(name, CellValue::Name(text)) if name.text == NAME && text == "mine"));
    view.display_name = Some("mine".to_owned());
    assert!(view.set_display_name(Some("mine".to_owned())).is_none());
    let write = view.set_display_name(None).unwrap();
    assert!(matches!(write.value, BlueprintValue::EmptyComponent(name) if name.text == NAME));

    assert!(view.set_origin(&EntityPath::from("world")).is_none());
    let write = view.set_origin(&EntityPath::from("a b/c")).unwrap();
    assert!(matches!(write.value, BlueprintValue::Component(name, CellValue::SpaceViewOrigin(text)) if name.text == ORIGIN && text == "/a\\ b/c"));

    assert!(view.set_visible(true).is_none());
    let write = view.set_visible(false).unwrap();
    assert!(matches!(write.value, BlueprintValue::Component(name, CellValue::Visible(false)) if name.text == VISIBLE));

    let write = view.clear();
    assert_eq!(write.entity_path, path);
    assert!(matches!(write.value, BlueprintValue::Component(_, CellValue::ClearIsRecursive(true))));
}

#[test]
fn a_cleared_view_is_gone() {
    let mut blueprint = blueprint();
    let view = view("world", &["+ $origin/**"]);
    save(&mut blueprint, 1, view.save_to_blueprint_store());
    write(&mut blueprint, 2, view.set_visible(false).unwrap());
    assert!(!SpaceViewBlueprint::try_from_db(view.id, &blueprint, &latest()).unwrap().visible);
    write(&mut blueprint, 3, view.clear());
    assert!(SpaceViewBlueprint::try_from_db(view.id, &blueprint, &latest()).is_none());
}

#[test]
fn a_duplicate_is_the_same_view_under_another_identity() {
    let mut blueprint = blueprint();
    let mut view = view("world", &["+ $origin/**"]);
    view.display_name = Some("mine".to_owned());
    save(&mut blueprint, 1, view.save_to_blueprint_store());
    let overrides = view.contents.blueprint_entity_path.join(&EntityPath::from("individual_overrides/x"));
    log(&mut blueprint, &overrides, now(1), vec![cell("color", CellValue::Other(5))]);

    let copy = view.duplicate(&blueprint, &now(2), &latest());
    assert_ne!(copy.id.text(), view.id.text());
    assert_eq!(copy.display_name.as_deref(), Some("mine"));
    assert_eq!(copy.space_origin, view.space_origin);
    assert!(copy.contents.is_equivalent(&view.contents));
    assert_ne!(copy.contents.blueprint_entity_path, view.contents.blueprint_entity_path);
    // What is kept below the view comes along; the view itself is saved separately.
    let moved = copy.contents.blueprint_entity_path.join(&EntityPath::from("individual_overrides/x"));
    let pending: Vec<&EntityPath> = copy.pending_writes.iter().map(|row| &row.entity_path).collect();
    assert!(pending.contains(&&moved));
    assert!(!pending.contains(&&copy.entity_path()));

    save(&mut blueprint, 2, copy.save_to_blueprint_store());
    let read = SpaceViewBlueprint::try_from_db(copy.id, &blueprint, &latest()).unwrap();
    assert_eq!(rules(&read.contents), rules(&view.contents));
    let found = blueprint.latest_at_component(&moved, &latest(), &InternedStr::new("color")).unwrap();
    assert!(matches!(&*found.2.value, CellValue::Other(5)));
}

#[test]
fn duplicating_under_a_given_identity() {
    let blueprint = blueprint();
    let view = view("world", &["+ $origin/**"]);
    let id = SpaceViewId::from_random(42);
    let copy = view.duplicate_as(id, &blueprint, &now(2), &latest());
    assert_eq!(copy.id.text(), id.text());
    assert!(copy.pending_writes.is_empty());
    assert!(copy.visible);
}

// --- Properties.

#[test]
fn properties_are_kept_at_the_view() {
    let mut blueprint = blueprint();
    let view = view("world", &[]);
    assert_eq!(view.legacy_properties(&blueprint, &latest()), EntityProperties::default());
    let mut properties = EntityProperties::default();
    properties.interactive = false;
    properties.color_mapper = EditableAutoValue::UserEdited(3);
    let update = view.save_legacy_properties(properties);
    assert!(matches!(&update.value, BlueprintValue::Component(name, _) if name.is(&entity_properties_name())));
    write(&mut blueprint, 1, update);
    assert_eq!(view.legacy_properties(&blueprint, &latest()), properties);
}

#[test]
fn properties_of_a_parent_win_over_its_children() {
    let edited = EditableAutoValue::UserEdited;
    let mut parent = EntityProperties::default();
    let mut child = EntityProperties::default();
    parent.backproject_depth = edited(1);
    child.backproject_depth = edited(2);
    child.color_mapper = edited(3);
    let both = parent.with_child(&child);
    assert_eq!(both.backproject_depth, edited(1));
    assert_eq!(both.color_mapper, edited(3));
    assert!(both.interactive);
    child.interactive = false;
    assert!(!parent.with_child(&child).interactive);
    assert!(!child.with_child(&parent).interactive);
    assert_eq!(EditableAutoValue::Auto(1).or(&EditableAutoValue::Auto(2)), EditableAutoValue::Auto(2));

    let mut map = EntityPropertyMap::new();
    assert_eq!(map.get(&EntityPath::from("a")), EntityProperties::default());
    map.insert(EntityPath::from("a"), parent);
    map.insert(EntityPath::from("a"), both);
    assert_eq!(map.props.len(), 1);
    assert_eq!(map.get(&EntityPath::from("a")), both);
    assert_eq!(map.get(&EntityPath::from("b")), EntityProperties::default());
}

#[test]
fn the_time_range_of_a_view() {
    let mut blueprint = blueprint();
    let view = view("world", &[]);
    let range = |db: &EntityDb, registry: &SpaceViewClassRegistry| {
        view.query_range(db, &latest(), &frame(), registry)
    };
    // What is not known shows what is latest; otherwise the class decides.
    let mut registry = SpaceViewClassRegistry::new();
    assert_eq!(range(&blueprint, &registry), QueryRange::LatestAt);
    let class = SpaceViewClass {
        default_query_range: everything_so_far(),
        default_visualizers: DefaultVisualizers::Indicated,
    };
    registry.classes.push((InternedStr::new("3D"), class));
    assert_eq!(view.class(&registry).default_query_range, everything_so_far());
    assert_eq!(registry.get_class(&InternedStr::new("2D")).default_query_range, QueryRange::LatestAt);
    assert_eq!(range(&blueprint, &registry), everything_so_far());

    // What is saved for the timeline wins.
    let chosen = TimeRange {
        start: TimeRangeBoundary::CursorRelative(-5),
        end: TimeRangeBoundary::Absolute(7),
    };
    let saved = |name: &'static str, range: TimeRange| VisibleTimeRange {
        timeline: InternedStr::new(name),
        start: range.start,
        end: range.end,
    };
    let ranges = vec![saved("other", TimeRange { start: TimeRangeBoundary::Infinite, end: TimeRangeBoundary::Infinite }), saved("frame", chosen)];
    let path = view.entity_path().join(&EntityPath::from("VisibleTimeRanges"));
    log(&mut blueprint, &path, now(1), vec![cell(RANGES, CellValue::VisibleTimeRanges(ranges))]);
    assert_eq!(range(&blueprint, &registry), QueryRange::TimeRange(chosen));
    let other = view.query_range(&blueprint, &latest(), &Timeline::new("third", TimeType::Time), &registry);
    assert_eq!(other, everything_so_far());
}

#[test]
fn the_first_range_for_a_timeline_counts() {
    let range = |name: &'static str, start: i64| VisibleTimeRange {
        timeline: InternedStr::new(name),
        start: TimeRangeBoundary::Absolute(start),
        end: TimeRangeBoundary::Infinite,
    };
    let ranges = VisibleTimeRanges { ranges: vec![range("a", 1), range("b", 2), range("b", 3)] };
    assert_eq!(ranges.range_for_timeline("b").unwrap().start, TimeRangeBoundary::Absolute(2));
    assert!(ranges.range_for_timeline("c").is_none());
}

// --- Contents.

#[test]
fn rules_keep_the_way_they_are_written() {
    let recommended = RecommendedSpaceView::new(EntityPath::from("world"), &strings(&["$origin/**", "- $origin/a"]));
    let filter = &recommended.query_filter;
    let expressions = filter.to_expressions();
    assert_eq!(expressions, vec!["+ $origin/**", "- $origin/a"]);
    assert!(filter.is_included(&EntityPath::from("world/b")));
    assert!(!filter.is_included(&EntityPath::from("world/a")));
    let everything = RecommendedSpaceView::root();
    assert_eq!(everything.origin, EntityPath::root());
    assert!(everything.query_filter.is_included(&EntityPath::from("any/thing")));
}

#[test]
fn contents_are_compared_by_class_and_rules() {
    let a = contents("+ /a/**\n- /a/b");
    assert!(a.is_equivalent(&contents("- /a/b\n+ /a/**")));
    assert!(!a.is_equivalent(&contents("+ /a/**")));
    let other = SpaceViewContents::new(SpaceViewId::from_random(7), InternedStr::new("2D"), filter("+ /a/**\n- /a/b"));
    assert!(!a.is_equivalent(&other));
    assert!(contents("+ /**").entity_path_filter_is_superset_of(&a));
    assert!(!a.entity_path_filter_is_superset_of(&contents("+ /**")));
    assert!(!contents("+ /**").entity_path_filter_is_superset_of(&other));
}

#[test]
fn what_covers_another_filter_includes_as_much() {
    // Rules, other rules, and whether the first ones are seen to cover the second ones.
    let pairs = [
        ("+ /**\n- /a/**", "+ /**\n- /a", false),
        ("+ /**\n- /a", "+ /**\n- /a", true),
        ("+ /**\n- /a", "+ /**\n- /a/**", true),
        ("+ /**\n- /a/**", "+ /**\n- /a/**", true),
        ("+ /**\n- /a/**\n- /a", "+ /**\n- /a/**\n- /a", true),
        ("+ /**\n- /a/**", "+ /**\n- /b", false),
        ("+ /**\n- /a/b/**", "+ /**\n- /a", false),
        ("+ /**\n- /a/**\n- /b", "+ /**\n- /a/**\n- /b/**", true),
        ("+ /**\n- /b/**", "+ /a/**\n- /a/c", true),
        ("+ /a/**", "- /a\n+ /a/b", true),
    ];
    let paths = ["/", "a", "a/b", "a/b/c", "a/c", "b", "b/c", "c"];
    for (rules, others, expected) in pairs {
        let (wide, narrow) = (contents(rules), contents(others));
        let covers = wide.entity_path_filter_is_superset_of(&narrow);
        assert_eq!(covers, expected, "{rules} over {others}");
        for path in paths.map(EntityPath::from) {
            if covers && narrow.entity_path_filter.is_included(&path) {
                assert!(wide.entity_path_filter.is_included(&path), "{path}: {rules} over {others}");
            }
        }
    }
}

#[test]
fn variables_are_filled_in_before_filters_are_held_against_each_other() {
    let view = |origin: &str, query: &[&str]| {
        let recommended = RecommendedSpaceView::new(EntityPath::from(origin), &strings(query));
        SpaceViewBlueprint::new(InternedStr::new("3D"), recommended).contents
    };
    let wide = view("world", &["+ $origin/**", "- $origin/a/**"]);
    assert!(wide.entity_path_filter_is_superset_of(&wide));
    assert!(wide.entity_path_filter_is_superset_of(&contents("+ /world/**\n- /world/a/**")));
    assert!(!wide.entity_path_filter_is_superset_of(&contents("+ /world/**\n- /world/a")));
    assert!(!wide.entity_path_filter_is_superset_of(&view("other", &["+ $origin/**"])));

    // With more than one variable, only what has none in it is settled.
    let mut subs = EntityPathSubs::default();
    subs.0.insert("origin".to_owned(), "/world".to_owned());
    subs.0.insert("other".to_owned(), "/b".to_owned());
    let read = |query: &[&str]| {
        let filter = PathFilter::from_query_expressions(&strings(query), &subs);
        SpaceViewContents::new(SpaceViewId::from_random(7), InternedStr::new("3D"), filter)
    };
    let plain = read(&["+ /**"]);
    assert!(plain.entity_path_filter_is_superset_of(&plain));
    assert!(plain.entity_path_filter_is_superset_of(&contents("+ /a")));
    let variable = read(&["+ $origin/**"]);
    assert!(!plain.entity_path_filter_is_superset_of(&variable));
    assert!(variable.entity_path_filter.is_included(&EntityPath::from("world/a")));
}

#[test]
fn filters_are_replaced() {
    let contents = contents("+ /a/**");
    assert_eq!(written_rules(contents.set_entity_path_filter(&filter("+ /a/**"))), None);
    let write = contents.set_entity_path_filter(&filter("+ /b"));
    assert_eq!(write.as_ref().unwrap().entity_path, contents.blueprint_entity_path);
    assert_eq!(written_rules(write), Some(strings(&["+ /b"])));
    let write = contents.save_to_blueprint_store();
    assert!(matches!(write.value, BlueprintValue::Contents(query) if query == strings(&["+ /a/**"])));
}

#[test]
fn a_subtree_is_removed_with_all_rules_about_it() {
    let contents = contents("+ /a/**\n+ /a/b/c\n- /a/b/d\n+ /e");
    let write = contents.remove_subtree_and_matching_rules(EntityPath::from("a/b"));
    assert_eq!(written_rules(write), Some(strings(&["+ /a/**", "- /a/b/**", "+ /e"])));
    let write = contents.remove_subtree_and_matching_rules(EntityPath::from("a"));
    assert_eq!(written_rules(write), Some(strings(&["- /a/**", "+ /e"])));
}

#[test]
fn removed_subtrees_are_left_out() {
    let before = contents("+ /a/**\n+ /a/b/c\n- /a/b2\n+ /a10\n- /z/**\n+ /a/b/**");
    let write = before.remove_subtree_and_matching_rules(EntityPath::from("a/b"));
    let after = filter(&written_rules(write).unwrap().join("\n"));
    for path in ["a/b", "a/b/c", "a/b/c/d"] {
        assert!(before.entity_path_filter.is_included(&EntityPath::from(path)), "{path}");
        assert!(!after.is_included(&EntityPath::from(path)), "{path}");
    }
    for path in ["a", "a/b2", "a/c", "a10", "z", "other"] {
        let path = EntityPath::from(path);
        assert_eq!(after.is_included(&path), before.entity_path_filter.is_included(&path), "{path}");
    }
}

#[test]
fn single_rules_are_added_and_removed() {
    let contents = contents("+ /a/**\n- /a/b");
    let rule = |text: &str, include_subtree: bool| EntityPathRule {
        raw_expression: if include_subtree { format!("{text}/**") } else { text.to_owned() },
        path: EntityPath::from(text),
        include_subtree,
    };
    let write = contents.raw_add_entity_inclusion(rule("/c", false));
    assert_eq!(written_rules(write), Some(strings(&["+ /a/**", "- /a/b", "+ /c"])));
    let write = contents.raw_add_entity_exclusion(rule("/a", true));
    assert_eq!(written_rules(write), Some(strings(&["- /a/**", "- /a/b"])));
    assert_eq!(written_rules(contents.raw_add_entity_exclusion(rule("/a/b", false))), None);
    assert_eq!(written_rules(contents.raw_add_entity_inclusion(rule("/a", true))), None);
    let write = contents.remove_filter_rule_for(&EntityPath::from("a"));
    assert_eq!(written_rules(write), Some(strings(&["- /a/b"])));
    assert_eq!(written_rules(contents.remove_filter_rule_for(&EntityPath::from("x"))), None);
}

// --- Queries.

fn three_entities() -> EntityDb {
    let mut recording = recording();
    for path in ["a", "a/b", "a/b/c"] {
        log(&mut recording, &EntityPath::from(path), TimePoint::timeless(), vec![cell("x", CellValue::Other(1))]);
    }
    recording
}

#[test]
fn queries_count_what_they_find() {
    let recording = three_entities();
    let visualizable = entities_for("Points", &["a", "a/b/c", "elsewhere"]);
    let result = contents("+ /**\n- /a/b").execute_query(&recording, &visualizable);
    // The root, and all but the one that is left out.
    assert_eq!(result.num_matching_entities, 3);
    assert_eq!(result.num_visualized_entities, 2);
    let found: Vec<String> = result.tree.visit().iter().map(|found| found.entity_path.to_string()).collect();
    assert_eq!(found, vec!["/", "/a", "/a/b", "/a/b/c"]);
    let between = result.tree.lookup_result_by_path(&EntityPath::from("a/b")).unwrap();
    assert!(between.tree_prefix_only);
    assert!(between.visualizers().is_empty());
    let leaf = result.tree.lookup_result_by_path(&EntityPath::from("a/b/c")).unwrap();
    assert_eq!(leaf.visualizers().len(), 1);
    assert!(leaf.visualizers()[0].is(&InternedStr::new("Points")));
    assert!(leaf.accumulated_properties().is_none());
    assert!(leaf.individual_override_path().is_none());
    assert!(result.tree.lookup_result_by_path(&EntityPath::from("z")).is_none());
    assert!(result.tree.root_handle().is_some());

    let nothing = contents("").execute_query(&recording, &visualizable);
    assert!(nothing.tree.root_handle().is_none());
    assert!(nothing.tree.visit().is_empty());
    assert_eq!(nothing.num_matching_entities, 0);
}

#[test]
fn covering_queries_show_as_much() {
    let recording = three_entities();
    let visualizable = entities_for("Points", &["a", "a/b", "a/b/c"]);
    let wide = contents("+ /a/**");
    let narrow = contents("+ /a/b/**\n- /a/b/c");
    assert!(wide.entity_path_filter_is_superset_of(&narrow));
    let wide = wide.execute_query(&recording, &visualizable);
    for found in narrow.execute_query(&recording, &visualizable).tree.visit() {
        if !found.tree_prefix_only {
            let same = wide.tree.lookup_result_by_path(&found.entity_path).unwrap();
            assert_eq!(same.visualizers().len(), found.visualizers().len());
        }
    }
}

#[test]
fn what_is_shown_by_what() {
    let recording = three_entities();
    let visualizable = PerVisualizer {
        entries: vec![
            (InternedStr::new("Points"), vec![EntityPath::from("a"), EntityPath::from("a/b")]),
            (InternedStr::new("Lines"), vec![EntityPath::from("a/b")]),
        ],
    };
    let view = view("/", &["+ /**"]);
    let result = view.contents.execute_query(&recording, &visualizable);
    let shown = view.on_frame_start(&result);
    let listed = |system: &'static str, path: &str| shown.lists(&InternedStr::new(system), &EntityPath::from(path));
    assert!(listed("Points", "a") && listed("Points", "a/b") && listed("Lines", "a/b"));
    assert!(!listed("Lines", "a") && !listed("Points", "a/b/c"));
    assert_eq!(shown.entries.len(), 2);
}

#[test]
fn visualizers_are_chosen() {
    let recording = three_entities();
    let mut blueprint = blueprint();
    let visualizable = PerVisualizer {
        entries: vec![
            (InternedStr::new("Points"), vec![EntityPath::from("a"), EntityPath::from("a/b")]),
            (InternedStr::new("Lines"), vec![EntityPath::from("a"), EntityPath::from("a/b")]),
        ],
    };
    let indicated = entities_for("Lines", &["a", "a/b"]);
    let view = view("/", &["+ /**"]);
    let mut registry = SpaceViewClassRegistry::new();
    let names = |registry: &SpaceViewClassRegistry, blueprint: &EntityDb, path: &str| {
        let resolver = view.contents.build_resolver(registry, &view, &visualizable, &indicated);
        let mut result = view.contents.execute_query(&recording, &visualizable);
        resolver.update_overrides(
            blueprint,
            &latest(),
            &frame(),
            registry,
            &EntityPropertyMap::new(),
            &mut result,
        );
        let found = result.tree.lookup_result_by_path(&EntityPath::from(path)).unwrap();
        found.visualizers().iter().map(|system| system.text).collect::<Vec<_>>()
    };
    // Of those that can show an entity, the ones it asks for.
    assert_eq!(names(&registry, &blueprint, "a"), vec!["Lines"]);
    // Unless the class has chosen others.
    let class = SpaceViewClass {
        default_query_range: QueryRange::LatestAt,
        default_visualizers: DefaultVisualizers::Chosen(entities_for("Spheres", &["a/b"])),
    };
    registry.classes.push((InternedStr::new("3D"), class));
    assert_eq!(names(&registry, &blueprint, "a/b"), vec!["Spheres"]);
    assert!(names(&registry, &blueprint, "a").is_empty());
    registry.classes.clear();
    // Or some were chosen for this very entity.
    let path = view.contents.blueprint_entity_path.join(&EntityPath::from("individual_overrides/a"));
    let chosen = vec![InternedStr::new("Points"), InternedStr::new("Other")];
    log(&mut blueprint, &path, now(1), vec![cell(VISUALIZERS, CellValue::VisualizerOverrides(chosen))]);
    assert_eq!(names(&registry, &blueprint, "a"), vec!["Points", "Other"]);
    assert_eq!(names(&registry, &blueprint, "a/b"), vec!["Lines"]);
}

use entity_store::classes::SpaceViewClassRegistry;
use entity_store::components::entity_properties_name;
use entity_store::contents::SpaceViewContents;
use entity_store::entity_db::EntityDb;
use entity_store::filter::PathFilter;
use entity_store::names::{
    InternedStr, RowId, StoreId, StoreKind, TimeInt, TimeType, Timeline,
};
use entity_store::overrides::EntityPropertyMap;
use entity_store::query::{DataQueryResult, PerVisualizer};
use entity_store::row::{CellValue, DataCell, DataRow, DataType, EntityProperties, TimePoint};
use entity_store::space_view::{RecommendedSpaceView, SpaceViewBlueprint};
use entity_store::store::LatestAtQuery;
use entity_store::view_id::SpaceViewId;
use re_log_types::example_components::{MyColor, MyLabel};
use re_log_types::EntityPath;
use re_types_core::Loggable;
use std::collections::HashMap;

fn database(kind: StoreKind) -> EntityDb {
    EntityDb::new(StoreId::from_string(kind, "test".to_owned()))
}

fn new_row_id() -> RowId {
    RowId { bits: re_log_types::RowId::new().as_u128() }
}

fn cell(name: &'static str, value: CellValue) -> DataCell {
    let datatype = DataType { id: 1, empty_size_bytes: 8 };
    DataCell::new(InternedStr::new(name), 1, 32, datatype, value)
}

fn log(db: &mut EntityDb, path: &EntityPath, timepoint: TimePoint, cells: Vec<DataCell>) {
    let row = DataRow::from_cells(new_row_id(), timepoint, path.clone(), cells).unwrap();
    db.add_data_row(row).unwrap();
}

fn registry() -> SpaceViewClassRegistry {
    SpaceViewClassRegistry::new()
}

fn blueprint_timeline() -> Timeline {
    Timeline::new("blueprint", TimeType::Time)
}

fn entities_for(visualizer: &'static str, paths: &[&str]) -> PerVisualizer {
    PerVisualizer {
        entries: vec![(
            InternedStr::new(visualizer),
            paths.iter().map(|path| EntityPath::from(*path)).collect(),
        )],
    }
}

fn visited(query_result: &DataQueryResult) -> Vec<String> {
    let mut visited = vec![];
    for result in query_result.tree.visit() {
        if result.entity_path == EntityPath::root() {
            visited.push("/**".to_owned());
        } else if result.tree_prefix_only {
            visited.push(format!("{}/**", result.entity_path));
            assert!(result.visualizers().is_empty());
        } else {
            visited.push(result.entity_path.to_string());
        }
    }
    visited
}

#[test]
fn test_query_results() {
    let space_env = Default::default();
    let mut recording = database(StoreKind::Recording);
    let timeline_frame = Timeline::new("frame", TimeType::Sequence);

    for entity_path in ["parent", "parent/skipped/child1", "parent/skipped/child2"] {
        let mut timepoint = TimePoint::timeless();
        timepoint.put_latest(timeline_frame, TimeInt::new_temporal(10));
        log(
            &mut recording,
            &EntityPath::from(entity_path),
            timepoint,
            vec![cell("example.MyPoint", CellValue::Other(1))],
        );
    }

    let visualizable_entities = entities_for("Points3D", &["parent", "parent/skipped/child1"]);

    let scenarios: Vec<(&str, Vec<&str>)> = vec![
        (
            "+ /**",
            vec![
                "/**",
                "/parent",
                "/parent/skipped",
                "/parent/skipped/child1", // Only child 1 has visualizers
            ],
        ),
        (
            "+ parent/skipped/**",
            vec![
                "/**",
                "/parent/**", // Only there because it is a prefix
                "/parent/skipped",
                "/parent/skipped/child1", // Only child 1 has visualizers
            ],
        ),
        (
            r"+ parent
              + parent/skipped/child2",
            vec![
                "/**", // Trivial intermediate group -- could be collapsed
                "/parent",
                "/parent/skipped/**", // Trivial intermediate group -- could be collapsed
                "/parent/skipped/child2",
            ],
        ),
        (
            r"+ parent/skipped
              + parent/skipped/child2
              + parent/**",
            vec![
                "/**",
                "/parent",
                "/parent/skipped",        // Exact match
                "/parent/skipped/child1", // Exact match
                "/parent/skipped/child2",
            ],
        ),
        (
            r"+ parent/skipped
              + parent/skipped/child2
              + parent/**
              - parent",
            vec![
                "/**",
                "/parent/**",             // Parent leaf has been excluded
                "/parent/skipped",        // Exact match
                "/parent/skipped/child1", // Exact match
                "/parent/skipped/child2",
            ],
        ),
        (
            r"+ parent/**
              - parent/skipped/**",
            vec!["/**", "/parent"], // None of the children are hit since excluded
        ),
        (
            r"+ parent/**
              + parent/skipped/child2
              - parent/skipped/child1",
            vec![
                "/**",
                "/parent",
                "/parent/skipped",
                "/parent/skipped/child2", // No child1 since skipped.
            ],
        ),
        (r"+ not/found", vec![]),
    ];

    for (i, (filter, outputs)) in scenarios.into_iter().enumerate() {
        let lines: Vec<String> = filter.split('\n').map(|line| line.to_owned()).collect();
        let contents = SpaceViewContents::new(
            SpaceViewId::random(),
            InternedStr::new("3D"),
            PathFilter::from_query_expressions(&lines, &space_env),
        );
        let query_result = contents.execute_query(&recording, &visualizable_entities);
        assert_eq!(visited(&query_result), outputs, "Scenario {i}, filter: {filter}");
    }
}

fn save_override(props: EntityProperties, path: &EntityPath, store: &mut EntityDb) {
    let name = entity_properties_name().text;
    log(
        store,
        path,
        TimePoint::timeless(),
        vec![cell(name, CellValue::EntityProperties(props))],
    );
}

#[test]
fn test_entity_properties() {
    let space_view_class_registry = registry();
    let timeline = Timeline::new("time", TimeType::Time);
    let mut recording = database(StoreKind::Recording);
    let mut blueprint = database(StoreKind::Blueprint);
    let legacy_auto_properties = EntityPropertyMap::new();

    for path in ["parent", "parent/skip/child1", "parent/skip/child2"] {
        log(
            &mut recording,
            &EntityPath::from(path),
            TimePoint::timeless(),
            vec![
                cell("rerun.components.Points3DIndicator", CellValue::Other(0)),
                cell("rerun.components.Position3D", CellValue::Other(1)),
            ],
        );
    }

    let recommended = RecommendedSpaceView::new(
        EntityPath::root(),
        &vec![
            "+ parent".to_owned(),
            "+ parent/skip/child1".to_owned(),
            "+ parent/skip/child2".to_owned(),
        ],
    );
    let space_view = SpaceViewBlueprint::new(InternedStr::new("3D"), recommended);

    let visualizable_entities = entities_for("Points3D", &["parent", "parent/skipped/child1"]);
    let indicated_entities = entities_for("Points3D", &["parent", "parent/skipped/child1"]);

    let blueprint_query = LatestAtQuery::latest(blueprint_timeline());
    let contents = &space_view.contents;
    let resolver = contents.build_resolver(
        &space_view_class_registry,
        &space_view,
        &visualizable_entities,
        &indicated_entities,
    );

    // No overrides set. Everybody has default values.
    {
        let mut query_result = contents.execute_query(&recording, &visualizable_entities);
        resolver.update_overrides(
            &blueprint,
            &blueprint_query,
            &timeline,
            &space_view_class_registry,
            &legacy_auto_properties,
            &mut query_result,
        );
        let find = |path: &str| {
            query_result.tree.lookup_result_by_path(&EntityPath::from(path)).unwrap()
        };
        let parent = find("parent");
        let child1 = find("parent/skip/child1");
        let child2 = find("parent/skip/child2");

        for result in [parent, child1, child2] {
            assert_eq!(result.accumulated_properties().unwrap(), &EntityProperties::default());
        }

        // Now, override interactive on parent individually.
        let mut overrides = parent.individual_properties().cloned().unwrap_or_default();
        overrides.interactive = false;
        save_override(overrides, parent.individual_override_path().unwrap(), &mut blueprint);
    }

    // Parent is not interactive, but children are
    {
        let mut query_result = contents.execute_query(&recording, &visualizable_entities);
        resolver.update_overrides(
            &blueprint,
            &blueprint_query,
            &timeline,
            &space_view_class_registry,
            &legacy_auto_properties,
            &mut query_result,
        );
        let find = |path: &str| {
            query_result.tree.lookup_result_by_path(&EntityPath::from(path)).unwrap()
        };
        let parent_group = find("parent");
        let parent = find("parent");
        let child1 = find("parent/skip/child1");
        let child2 = find("parent/skip/child2");

        assert!(!parent.accumulated_properties().unwrap().interactive);
        for result in [child1, child2] {
            assert!(result.accumulated_properties().unwrap().interactive);
        }

        // Override interactivity on parent recursively.
        let mut overrides = parent_group.individual_properties().cloned().unwrap_or_default();
        overrides.interactive = false;
        save_override(overrides, parent_group.recursive_override_path().unwrap(), &mut blueprint);
    }

    // Nobody is interactive
    {
        let mut query_result = contents.execute_query(&recording, &visualizable_entities);
        resolver.update_overrides(
            &blueprint,
            &blueprint_query,
            &timeline,
            &space_view_class_registry,
            &legacy_auto_properties,
            &mut query_result,
        );
        let find = |path: &str| {
            query_result.tree.lookup_result_by_path(&EntityPath::from(path)).unwrap()
        };
        for result in [find("parent"), find("parent/skip/child1"), find("parent/skip/child2")] {
            assert!(!result.accumulated_properties().unwrap().interactive);
        }
    }
}

/// An entity, and a component to log to it.
type Override = (&'static str, &'static str);

/// An entity, and for each overridden component where that comes from.
type Expected = (&'static str, Vec<(&'static str, EntityPath)>);

#[test]
fn test_component_overrides() {
    let space_view_class_registry = registry();
    let timeline = Timeline::new("time", TimeType::Time);
    let legacy_auto_properties = EntityPropertyMap::new();
    let mut recording = database(StoreKind::Recording);

    // Set up a store with some entities.
    let entity_paths = ["parent", "parent/skipped/grandchild", "parent/child"];
    for entity_path in entity_paths {
        log(
            &mut recording,
            &EntityPath::from(entity_path),
            TimePoint::timeless(),
            vec![cell("example.MyPoint", CellValue::Other(1))],
        );
    }
    // All of them are visualizable with some arbitrary visualizer.
    let visualizable_entities = entities_for("Points3D", &entity_paths);

    // Basic blueprint - a single space view that queries everything.
    let space_view =
        SpaceViewBlueprint::new(InternedStr::new("3D"), RecommendedSpaceView::root());
    let individual_override_root = space_view
        .contents
        .blueprint_entity_path
        .join(&EntityPath::from("individual_overrides"));
    let recursive_override_root = space_view
        .contents
        .blueprint_entity_path
        .join(&EntityPath::from("recursive_overrides"));

    // Things needed to resolve properties:
    let indicated_entities = PerVisualizer::new(); // Don't care about indicated entities.
    let resolver = space_view.contents.build_resolver(
        &space_view_class_registry,
        &space_view,
        &visualizable_entities,
        &indicated_entities,
    );

    let label = MyLabel::name().as_str();
    let color = MyColor::name().as_str();
    let recursive = |path: &str| recursive_override_root.join(&EntityPath::from(path));
    let individual = |path: &str| individual_override_root.join(&EntityPath::from(path));

    let scenarios: Vec<(Vec<Override>, Vec<Override>, Vec<Expected>)> = vec![
        // No overrides.
        (vec![], vec![], vec![]),
        // Recursive override at parent entity.
        (
            vec![("parent", label)],
            vec![],
            vec![
                ("parent", vec![(label, recursive("parent"))]),
                ("parent/skipped", vec![(label, recursive("parent"))]),
                ("parent/skipped/grandchild", vec![(label, recursive("parent"))]),
                ("parent/child", vec![(label, recursive("parent"))]),
            ],
        ),
        // Set a single individual.
        (
            vec![],
            vec![("parent", label)],
            vec![("parent", vec![(label, individual("parent"))])],
        ),
        // Recursive override, partially shadowed by individual.
        (
            vec![("parent/skipped", label), ("parent/skipped", color)],
            vec![("parent/skipped/grandchild", color)],
            vec![
                (
                    "parent/skipped",
                    vec![
                        (label, recursive("parent/skipped")),
                        (color, recursive("parent/skipped")),
                    ],
                ),
                (
                    "parent/skipped/grandchild",
                    vec![
                        (label, recursive("parent/skipped")),
                        (color, individual("parent/skipped/grandchild")),
                    ],
                ),
            ],
        ),
        // Recursive override, partially shadowed by another recursive override.
        (
            vec![
                ("parent/skipped", label),
                ("parent/skipped", color),
                ("parent/skipped/grandchild", color),
            ],
            vec![],
            vec![
                (
                    "parent/skipped",
                    vec![
                        (label, recursive("parent/skipped")),
                        (color, recursive("parent/skipped")),
                    ],
                ),
                (
                    "parent/skipped/grandchild",
                    vec![
                        (label, recursive("parent/skipped")),
                        (color, recursive("parent/skipped/grandchild")),
                    ],
                ),
            ],
        ),
    ];

    for (i, (recursive_overrides, individual_overrides, expected)) in
        scenarios.into_iter().enumerate()
    {
        let mut blueprint = database(StoreKind::Blueprint);

        // log individual and override components as instructed.
        for (entity_path, component) in recursive_overrides {
            log(
                &mut blueprint,
                &recursive(entity_path),
                TimePoint::timeless(),
                vec![cell(component, CellValue::Other(7))],
            );
        }
        for (entity_path, component) in individual_overrides {
            log(
                &mut blueprint,
                &individual(entity_path),
                TimePoint::timeless(),
                vec![cell(component, CellValue::Other(8))],
            );
        }

        // Set up a store query and update the overrides.
        let mut query_result =
            space_view.contents.execute_query(&recording, &visualizable_entities);
        let blueprint_query = LatestAtQuery::latest(blueprint_timeline());
        resolver.update_overrides(
            &blueprint,
            &blueprint_query,
            &timeline,
            &space_view_class_registry,
            &legacy_auto_properties,
            &mut query_result,
        );

        // Extract component overrides for testing.
        let mut found: HashMap<EntityPath, HashMap<String, EntityPath>> = HashMap::default();
        for result in query_result.tree.visit() {
            if let Some(property_overrides) = &result.property_overrides {
                let overrides = &property_overrides.resolved_component_overrides;
                if !overrides.is_empty() {
                    let by_name = overrides
                        .entries
                        .iter()
                        .map(|(name, source)| {
                            assert_eq!(source.store_kind, StoreKind::Blueprint);
                            (name.text.to_owned(), source.path.clone())
                        })
                        .collect();
                    found.insert(result.entity_path.clone(), by_name);
                }
            }
        }
        let expected: HashMap<EntityPath, HashMap<String, EntityPath>> = expected
            .into_iter()
            .map(|(path, overrides)| {
                let by_name =
                    overrides.into_iter().map(|(name, path)| (name.to_owned(), path)).collect();
                (EntityPath::from(path), by_name)
            })
            .collect();
        assert_eq!(found, expected, "Scenario {i}");
    }
}

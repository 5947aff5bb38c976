//! Classes of views: what a view shows unless told otherwise.
use crate::data_result::{
    new_system_list, push_system, system_list, QueryRange, SystemList,
};
use crate::names::{SpaceViewClassIdentifier, ViewSystemIdentifier};
use crate::path::{is_one_of_paths, paths_contain};
use crate::query::{visualizers_for, PerVisualizer};
use re_log_types::EntityPath;
use vstd::prelude::*;

verus! {

/// Whether an entity is listed for a visualizer.
pub open spec fn is_listed_for(
    entries: Seq<(ViewSystemIdentifier, Vec<EntityPath>)>,
    system: Seq<char>,
    path: EntityPath,
) -> bool {
    exists|i: int|
        0 <= i < entries.len() && (#[trigger] entries[i]).0@ == system && paths_contain(
            entries[i].1@,
            path,
        )
}

/// The visualizers that can show an entity and are asked for by it, in order.
pub open spec fn indicated_visualizers(
    visualizable: Seq<(ViewSystemIdentifier, Vec<EntityPath>)>,
    indicated: Seq<(ViewSystemIdentifier, Vec<EntityPath>)>,
    path: EntityPath,
) -> Seq<ViewSystemIdentifier>
    decreases visualizable.len(),
{
    if visualizable.len() == 0 {
        Seq::empty()
    } else {
        let rest = indicated_visualizers(visualizable.drop_last(), indicated, path);
        let last = visualizable.last();
        if paths_contain(last.1@, path) && is_listed_for(indicated, last.0@, path) {
            rest.push(last.0)
        } else {
            rest
        }
    }
}

/// The visualizers that can show an entity and are asked for by it, in order.
pub fn default_visualizers(
    visualizable: &PerVisualizer,
    indicated: &PerVisualizer,
    path: &EntityPath,
) -> (r: SystemList)
    ensures
        system_list(r) == indicated_visualizers(visualizable.entries@, indicated.entries@, *path),
{
    let mut systems = new_system_list();
    let mut i: usize = 0;
    while i < visualizable.entries.len()
        invariant
            i <= visualizable.entries@.len(),
            system_list(systems) == indicated_visualizers(
                visualizable.entries@.take(i as int),
                indicated.entries@,
                *path,
            ),
        decreases visualizable.entries@.len() - i,
    {
        assert(visualizable.entries@.take(i + 1).drop_last() =~= visualizable.entries@.take(
            i as int,
        ));
        let system = visualizable.entries[i].0;
        if is_one_of_paths(path, &visualizable.entries[i].1) && indicated.lists(&system, path) {
            push_system(&mut systems, system);
        }
        i += 1;
    }
    assert(visualizable.entries@.take(i as int) =~= visualizable.entries@);
    systems
}

impl PerVisualizer {
    /// Whether an entity is listed for a visualizer.
    pub fn lists(&self, system: &ViewSystemIdentifier, path: &EntityPath) -> (r: bool)
        ensures
            r == is_listed_for(self.entries@, system@, *path),
    {
        let mut i: usize = 0;
        while i < self.entries.len()
            invariant
                i <= self.entries@.len(),
                forall|j: int|
                    0 <= j < i ==> !((#[trigger] self.entries@[j]).0@ == system@ && paths_contain(
                        self.entries@[j].1@,
                        *path,
                    )),
            decreases self.entries@.len() - i,
        {
            if self.entries[i].0.is(system) && is_one_of_paths(path, &self.entries[i].1) {
                return true;
            }
            i += 1;
        }
        false
    }
}

/// What shows an entity in views of a class unless told otherwise.
pub enum DefaultVisualizers {
    /// Those that can show an entity and are asked for by it.
    Indicated,
    /// Those that the class has chosen for each entity.
    Chosen(PerVisualizer),
}

/// A class of views.
pub struct SpaceViewClass {
    /// Which part of a timeline views of this class show unless told otherwise.
    pub default_query_range: QueryRange,
    pub default_visualizers: DefaultVisualizers,
}

impl SpaceViewClass {
    /// What shows an entity in views of this class unless told otherwise.
    pub open spec fn chosen_visualizers(
        self,
        entity_path: EntityPath,
        visualizable: Seq<(ViewSystemIdentifier, Vec<EntityPath>)>,
        indicated: Seq<(ViewSystemIdentifier, Vec<EntityPath>)>,
    ) -> Seq<ViewSystemIdentifier> {
        match self.default_visualizers {
            DefaultVisualizers::Indicated => indicated_visualizers(
                visualizable,
                indicated,
                entity_path,
            ),
            DefaultVisualizers::Chosen(chosen) => visualizers_for(chosen.entries@, entity_path),
        }
    }

    /// What shows an entity in views of this class unless told otherwise.
    pub fn choose_default_visualizers(
        &self,
        entity_path: &EntityPath,
        visualizable: &PerVisualizer,
        indicated: &PerVisualizer,
    ) -> (r: SystemList)
        ensures
            system_list(r) == self.chosen_visualizers(
                *entity_path,
                visualizable.entries@,
                indicated.entries@,
            ),
    {
        match &self.default_visualizers {
            DefaultVisualizers::Indicated => default_visualizers(
                visualizable,
                indicated,
                entity_path,
            ),
            DefaultVisualizers::Chosen(chosen) => chosen.visualizers_of(entity_path),
        }
    }
}

/// All classes of views that are known.
pub struct SpaceViewClassRegistry {
    pub classes: Vec<(SpaceViewClassIdentifier, SpaceViewClass)>,
    /// Stands in for a class that is not known.
    pub placeholder: SpaceViewClass,
}

/// The first class under a name, if there is one.
pub open spec fn known_class(
    classes: Seq<(SpaceViewClassIdentifier, SpaceViewClass)>,
    identifier: Seq<char>,
) -> Option<SpaceViewClass>
    decreases classes.len(),
{
    if classes.len() == 0 {
        None
    } else if classes[0].0@ == identifier {
        Some(classes[0].1)
    } else {
        known_class(classes.skip(1), identifier)
    }
}

impl SpaceViewClassRegistry {
    /// The first class under a name; the placeholder if there is none.
    pub open spec fn class_of(self, identifier: Seq<char>) -> SpaceViewClass {
        match known_class(self.classes@, identifier) {
            Some(class) => class,
            None => self.placeholder,
        }
    }

    /// A registry without any classes. Of what is not known, views show what is latest, with
    /// whatever the entities ask for.
    pub fn new() -> (r: SpaceViewClassRegistry)
        ensures
            r.classes@.len() == 0,
            r.placeholder == (SpaceViewClass {
                default_query_range: QueryRange::LatestAt,
                default_visualizers: DefaultVisualizers::Indicated,
            }),
    {
        SpaceViewClassRegistry {
            classes: Vec::new(),
            placeholder: SpaceViewClass {
                default_query_range: QueryRange::LatestAt,
                default_visualizers: DefaultVisualizers::Indicated,
            },
        }
    }

    /// The class under a name, or the placeholder if there is none.
    pub fn get_class(&self, identifier: &SpaceViewClassIdentifier) -> (r: &SpaceViewClass)
        ensures
            *r == self.class_of(identifier@),
    {
        let mut i: usize = 0;
        assert(self.classes@.skip(0) =~= self.classes@);
        while i < self.classes.len()
            invariant
                i <= self.classes@.len(),
                known_class(self.classes@, identifier@) == known_class(
                    self.classes@.skip(i as int),
                    identifier@,
                ),
            decreases self.classes@.len() - i,
        {
            assert(self.classes@.skip(i as int).skip(1) =~= self.classes@.skip(i + 1));
            if self.classes[i].0.is(identifier) {
                return &self.classes[i].1;
            }
            i += 1;
        }
        &self.placeholder
    }
}

} // verus!

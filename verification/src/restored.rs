//! What a view is read from.
use crate::archetypes::{
    compound_index, latest_entries, Archetype, SavedContents, SavedSpaceView,
};
use crate::contents::{property_parts, saved_rules};
use crate::entries::Entry;
use crate::filter::{parsed_rules, string_views};
use crate::names::{SpaceViewClassIdentifier, TIME_STATIC};
use crate::path::{hash_of, parsed_path, path_text};
use crate::row::CellValue;
use crate::space_view::{origin_env, saved_view};
use crate::store::{latest_entry, LatestAtQuery, StoreView};
use crate::view_id::{id_text, view_parts, SpaceViewId};
use vstd::prelude::*;

verus! {

/// What the blueprint holds of a component of the entity that some parts lead to, unless it is
/// empty.
pub open spec fn held_at(
    store: StoreView,
    query: LatestAtQuery,
    parts: Seq<Seq<char>>,
    component: Seq<char>,
) -> Option<CellValue> {
    match latest_entry(store, query, hash_of(parts), component) {
        Some(entry) => if entry.cell.num_instances > 0 {
            Some(*entry.cell.value)
        } else {
            None
        },
        None => None,
    }
}

/// Where a view is kept.
pub open spec fn place_of(id: SpaceViewId) -> Seq<Seq<char>> {
    seq!["space_view"@, id_text(id.bits)]
}

/// Where the contents of a view are kept.
pub open spec fn place_of_contents(id: SpaceViewId) -> Seq<Seq<char>> {
    seq!["space_view"@, id_text(id.bits), "SpaceViewContents"@]
}

/// Whether there is a view, given what is held of its class, name, origin and visibility: it has a
/// class, and nothing is something else than it should be.
pub open spec fn is_view(
    class: Option<CellValue>,
    name: Option<CellValue>,
    origin: Option<CellValue>,
    visible: Option<CellValue>,
) -> bool {
    &&& class is Some && class->0 is SpaceViewClass
    &&& (name matches Some(value) ==> value is Name)
    &&& (origin matches Some(value) ==> value is SpaceViewOrigin)
    &&& (visible matches Some(value) ==> value is Visible)
}

/// Whether a class is the one that is held.
pub open spec fn has_class(class: Option<CellValue>, identifier: SpaceViewClassIdentifier) -> bool {
    class matches Some(CellValue::SpaceViewClass(held)) && held == identifier
}

/// The rules that are held, written out.
pub open spec fn held_rules(rules: Option<CellValue>) -> Seq<Seq<char>> {
    match rules {
        Some(CellValue::QueryExpressions(query)) => Seq::new(query@.len(), |i: int| query@[i]@),
        _ => Seq::empty(),
    }
}

/// Law: the rules of a view are the query expressions that are held for its contents.
pub proof fn law_rules_are_read_from_the_contents(
    store: StoreView,
    query: LatestAtQuery,
    id: SpaceViewId,
)
    ensures
        saved_rules(store, query, id) == held_rules(
            held_at(
                store,
                query,
                place_of_contents(id),
                "rerun.blueprint.components.QueryExpression"@,
            ),
        ),
{
    assert(property_parts(id, "SpaceViewContents"@) =~= place_of_contents(id));
    let hash = hash_of(place_of_contents(id));
    let names = SavedContents::component_names();
    let found = latest_entries(store, query, hash, names);
    assert(names[1] == "rerun.blueprint.components.QueryExpression"@);
    assert(found[1] == latest_entry(store, query, hash, names[1]));
    let held = held_at(store, query, place_of_contents(id), names[1]);
    if let Some(CellValue::QueryExpressions(texts)) = held {
        assert(string_views(texts@) =~= held_rules(held));
    }
    assert(saved_rules(store, query, id) =~= held_rules(held));
}

/// Law: a view is read from what is held of it, each of its properties from the component for it.
/// It is there if and only if its class is held, and nothing that is held is something else than it
/// should be. What is not held is left out: there is no name, the origin is the root, and the view
/// is visible.
pub proof fn law_views_are_read_from_what_is_held(
    store: StoreView,
    query: LatestAtQuery,
    id: SpaceViewId,
)
    ensures
        ({
            let held = |component: Seq<char>| held_at(store, query, place_of(id), component);
            let class = held("rerun.blueprint.components.SpaceViewClass"@);
            let name = held("rerun.components.Name"@);
            let origin = held("rerun.blueprint.components.SpaceViewOrigin"@);
            let visible = held("rerun.blueprint.components.Visible"@);
            let rules = held_at(
                store,
                query,
                place_of_contents(id),
                "rerun.blueprint.components.QueryExpression"@,
            );
            &&& saved_view(store, query, id) is Some <==> is_view(class, name, origin, visible)
            &&& saved_view(store, query, id) matches Some(view) ==> {
                &&& view.id == id
                &&& has_class(class, view.class_identifier)
                &&& view.display_name == match name {
                    Some(CellValue::Name(text)) => Some(text@),
                    _ => None,
                }
                &&& view.origin == match origin {
                    Some(CellValue::SpaceViewOrigin(text)) => parsed_path(text@),
                    _ => Seq::empty(),
                }
                &&& view.visible == match visible {
                    Some(CellValue::Visible(visible)) => visible,
                    _ => true,
                }
                &&& view.rules == parsed_rules(
                    held_rules(rules),
                    map!["origin"@ => path_text(view.origin)],
                )
            }
        }),
{
    assert(view_parts(id) =~= place_of(id));
    let hash = hash_of(place_of(id));
    let names = SavedSpaceView::component_names();
    let found = latest_entries(store, query, hash, names);
    assert(names[0] == "rerun.blueprint.components.SpaceViewClass"@);
    assert(names[2] == "rerun.blueprint.components.SpaceViewOrigin"@);
    assert(names[3] == "rerun.blueprint.components.Visible"@);
    assert(names[4] == "rerun.components.Name"@);
    assert(found[0] == latest_entry(store, query, hash, names[0]));
    assert(found[2] == latest_entry(store, query, hash, names[2]));
    assert(found[3] == latest_entry(store, query, hash, names[3]));
    assert(found[4] == latest_entry(store, query, hash, names[4]));
    law_rules_are_read_from_the_contents(store, query, id);
    if let Some(view) = saved_view(store, query, id) {
        assert(origin_env(view.origin) =~= map!["origin"@ => path_text(view.origin)]);
    }
}

/// Whether something was found that is later than a time, or of that time and from a higher row.
pub open spec fn is_later(entry: Entry, time: i64, row_id: u128) -> bool {
    entry.time > time || (entry.time == time && entry.row_id.bits > row_id)
}

/// Law: what is put together of several components is as late as the latest of them, and comes with
/// the row of that one.
pub proof fn law_parts_are_as_late_as_the_latest(found: Seq<Option<Entry>>)
    ensures
        ({
            let (time, row_id) = compound_index(found);
            &&& forall|i: int|
                0 <= i < found.len() && (#[trigger] found[i]) is Some ==> !is_later(
                    found[i]->0,
                    time,
                    row_id.bits,
                )
            &&& (exists|i: int|
                0 <= i < found.len() && (#[trigger] found[i]) is Some && found[i]->0.time == time
                    && found[i]->0.row_id == row_id) || (time == TIME_STATIC && row_id.bits == 0)
        }),
    decreases found.len(),
{
    if found.len() > 0 {
        let init = found.drop_last();
        let n = init.len() as int;
        law_parts_are_as_late_as_the_latest(init);
        let (time, row_id) = compound_index(found);
        let (old_time, old_row_id) = compound_index(init);
        assert forall|i: int| 0 <= i < found.len() && (#[trigger] found[i]) is Some implies !is_later(
            found[i]->0,
            time,
            row_id.bits,
        ) by {
            if i < n {
                assert(init[i] is Some);
                assert(!is_later(init[i]->0, old_time, old_row_id.bits));
            }
        }
        if (time, row_id) == (old_time, old_row_id) {
            if exists|i: int|
                0 <= i < init.len() && (#[trigger] init[i]) is Some && init[i]->0.time == time
                    && init[i]->0.row_id == row_id {
                let i = choose|i: int|
                    0 <= i < init.len() && (#[trigger] init[i]) is Some && init[i]->0.time == time
                        && init[i]->0.row_id == row_id;
                assert(found[i] == init[i]);
            }
        } else {
            assert(found[n] is Some && found[n]->0.time == time && found[n]->0.row_id == row_id);
        }
    }
}

} // verus!

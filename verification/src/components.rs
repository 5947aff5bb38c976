//! The names of the components that are read here.
use crate::names::{ComponentName, InternedStr};
use vstd::prelude::*;

verus! {

/// Whether a clear is for everything below an entity as well.
///
/// Calls `ClearIsRecursive::name` of `re_types_core`.
#[verifier::external_body]
pub(crate) fn clear_is_recursive_name() -> (r: ComponentName)
    ensures
        r@ == "rerun.components.ClearIsRecursive"@,
{
    let name = <re_types_core::components::ClearIsRecursive as re_types_core::Loggable>::name();
    InternedStr { text: name.as_str() }
}

/// The mark of a clear.
///
/// Calls `Clear::indicator` of `re_types_core`, and `name` on what it returns.
#[verifier::external_body]
pub(crate) fn clear_indicator_name() -> (r: ComponentName)
    ensures
        r@ == "rerun.components.ClearIndicator"@,
{
    let clear = <re_types_core::archetypes::Clear as re_types_core::Archetype>::indicator();
    InternedStr { text: re_types_core::LoggableBatch::name(&clear).as_str() }
}

/// Which visualizers to use for an entity.
///
/// Calls `VisualizerOverrides::name` of `re_types_core`.
#[verifier::external_body]
pub(crate) fn visualizer_overrides_name() -> (r: ComponentName)
    ensures
        r@ == "rerun.components.VisualizerOverrides"@,
{
    let name = <re_types_core::components::VisualizerOverrides as re_types_core::Loggable>::name();
    InternedStr { text: name.as_str() }
}

/// A rule of an entity path filter.
///
/// Calls `QueryExpression::name` of `re_types`.
#[verifier::external_body]
pub(crate) fn query_expression_name() -> (r: ComponentName)
    ensures
        r@ == "rerun.blueprint.components.QueryExpression"@,
{
    let name =
        <re_types::blueprint::components::QueryExpression as re_types_core::Loggable>::name();
    InternedStr { text: name.as_str() }
}

/// All the components that the time ranges to show are saved as.
///
/// Calls `VisibleTimeRanges::all_components` of `re_types`, which lists two names.
#[verifier::external_body]
pub(crate) fn visible_time_ranges_components() -> (r: Vec<ComponentName>)
    ensures
        r@.len() == 2,
        r@[0]@ == "rerun.blueprint.components.VisibleTimeRange"@,
        r@[1]@ == "rerun.blueprint.components.VisibleTimeRangesIndicator"@,
{
    let names =
        <re_types::blueprint::archetypes::VisibleTimeRanges as re_types_core::Archetype>::all_components();
    names.iter().map(|name| InternedStr { text: name.as_str() }).collect()
}

/// What the time ranges to show are saved under.
///
/// Calls `VisibleTimeRanges::name` of `re_types`, and `short_name` on what it returns, which leaves
/// off the common prefix of all archetypes.
#[verifier::external_body]
pub(crate) fn visible_time_ranges_short_name() -> (r: &'static str)
    ensures
        r@ == "VisibleTimeRanges"@,
{
    <re_types::blueprint::archetypes::VisibleTimeRanges as re_types_core::Archetype>::name().short_name()
}

/// All the components that the contents of a view are saved as.
///
/// Calls `SpaceViewContents::all_components` of `re_types`, which lists two names.
#[verifier::external_body]
pub(crate) fn space_view_contents_components() -> (r: Vec<ComponentName>)
    ensures
        r@.len() == 2,
        r@[0]@ == "rerun.blueprint.components.SpaceViewContentsIndicator"@,
        r@[1]@ == "rerun.blueprint.components.QueryExpression"@,
{
    let names =
        <re_types::blueprint::archetypes::SpaceViewContents as re_types_core::Archetype>::all_components();
    names.iter().map(|name| InternedStr { text: name.as_str() }).collect()
}

/// A name to display.
///
/// Calls `Name::name` of `re_types`.
#[verifier::external_body]
pub(crate) fn name_name() -> (r: ComponentName)
    ensures
        r@ == "rerun.components.Name"@,
{
    let name = <re_types::components::Name as re_types_core::Loggable>::name();
    InternedStr { text: name.as_str() }
}

/// Whether something is shown.
///
/// Calls `Visible::name` of `re_types`.
#[verifier::external_body]
pub(crate) fn visible_name() -> (r: ComponentName)
    ensures
        r@ == "rerun.blueprint.components.Visible"@,
{
    let name = <re_types::blueprint::components::Visible as re_types_core::Loggable>::name();
    InternedStr { text: name.as_str() }
}

/// The entity that a view is centered on.
///
/// Calls `SpaceViewOrigin::name` of `re_types`.
#[verifier::external_body]
pub(crate) fn space_view_origin_name() -> (r: ComponentName)
    ensures
        r@ == "rerun.blueprint.components.SpaceViewOrigin"@,
{
    let name =
        <re_types::blueprint::components::SpaceViewOrigin as re_types_core::Loggable>::name();
    InternedStr { text: name.as_str() }
}

/// All the components that a view is saved as.
///
/// Calls `SpaceViewBlueprint::all_components` of `re_types`, which lists five names.
#[verifier::external_body]
pub(crate) fn space_view_blueprint_components() -> (r: Vec<ComponentName>)
    ensures
        r@.len() == 5,
        r@[0]@ == "rerun.blueprint.components.SpaceViewClass"@,
        r@[1]@ == "rerun.blueprint.components.SpaceViewBlueprintIndicator"@,
        r@[2]@ == "rerun.blueprint.components.SpaceViewOrigin"@,
        r@[3]@ == "rerun.blueprint.components.Visible"@,
        r@[4]@ == "rerun.components.Name"@,
{
    let names =
        <re_types::blueprint::archetypes::SpaceViewBlueprint as re_types_core::Archetype>::all_components();
    names.iter().map(|name| InternedStr { text: name.as_str() }).collect()
}

/// What the contents of a view are saved under.
///
/// Calls `SpaceViewContents::name` of `re_types`, and `short_name` on what it returns, which leaves
/// off the common prefix of all archetypes.
#[verifier::external_body]
pub(crate) fn space_view_contents_short_name() -> (r: &'static str)
    ensures
        r@ == "SpaceViewContents"@,
{
    <re_types::blueprint::archetypes::SpaceViewContents as re_types_core::Archetype>::name().short_name()
}

/// The properties of an entity that are not components of their own.
pub fn entity_properties_name() -> (r: ComponentName)
    ensures
        r@ == "rerun.controls.EntityProperties"@,
{
    InternedStr::new("rerun.controls.EntityProperties")
}

} // verus!

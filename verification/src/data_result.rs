//! What a query finds: entities and how to show them, as a tree held together by handles.
use crate::names::{ComponentName, StoreKind, ViewSystemIdentifier};
use crate::path::{clone_path, entity_path_parts};
use crate::row::{EntityProperties, TimeRangeBoundary};
use re_log_types::EntityPath;
use vstd::prelude::*;

verus! {

// --- Short lists.

/// A few visualizers, in a `smallvec::SmallVec`.
#[verifier::external_body]
pub struct SystemList {
    inner: smallvec::SmallVec<[ViewSystemIdentifier; 4]>,
}

/// The visualizers in a list, in order.
pub uninterp spec fn system_list(list: SystemList) -> Seq<ViewSystemIdentifier>;

/// A list without visualizers.
///
/// Calls `SmallVec::new`.
#[verifier::external_body]
pub(crate) fn new_system_list() -> (r: SystemList)
    ensures
        system_list(r) == Seq::<ViewSystemIdentifier>::empty(),
{
    SystemList { inner: smallvec::SmallVec::new() }
}

/// Adds a visualizer at the end of a list.
///
/// Calls `SmallVec::push`.
#[verifier::external_body]
pub(crate) fn push_system(list: &mut SystemList, system: ViewSystemIdentifier)
    ensures
        system_list(*final(list)) == system_list(*old(list)).push(system),
{
    list.inner.push(system);
}

/// The visualizers of a list.
///
/// Calls `SmallVec::as_slice`.
#[verifier::external_body]
pub(crate) fn systems_of(list: &SystemList) -> (r: &[ViewSystemIdentifier])
    ensures
        r@ == system_list(*list),
{
    list.inner.as_slice()
}

/// A few handles, in a `smallvec::SmallVec`.
#[verifier::external_body]
pub struct HandleList {
    inner: smallvec::SmallVec<[DataResultHandle; 4]>,
}

/// The handles in a list, in order.
pub uninterp spec fn handle_list(list: HandleList) -> Seq<DataResultHandle>;

/// A list without handles.
///
/// Calls `SmallVec::new`.
#[verifier::external_body]
pub(crate) fn new_handle_list() -> (r: HandleList)
    ensures
        handle_list(r) == Seq::<DataResultHandle>::empty(),
{
    HandleList { inner: smallvec::SmallVec::new() }
}

/// Adds a handle at the end of a list.
///
/// Calls `SmallVec::push`.
#[verifier::external_body]
pub(crate) fn push_handle(list: &mut HandleList, handle: DataResultHandle)
    ensures
        handle_list(*final(list)) == handle_list(*old(list)).push(handle),
{
    list.inner.push(handle);
}

/// The handles of a list.
///
/// Calls `SmallVec::as_slice`.
#[verifier::external_body]
pub(crate) fn handles_of(list: &HandleList) -> (r: &[DataResultHandle])
    ensures
        r@ == handle_list(*list),
{
    list.inner.as_slice()
}

// --- Overrides.

/// Where an override of a component comes from.
#[derive(Debug)]
pub struct OverridePath {
    pub store_kind: StoreKind,
    pub path: EntityPath,
}

/// What contracts know of where an override comes from.
#[verifier::ext_equal]
pub struct OverrideView {
    pub store_kind: StoreKind,
    pub parts: Seq<Seq<char>>,
}

impl View for OverridePath {
    type V = OverrideView;

    open spec fn view(&self) -> OverrideView {
        OverrideView { store_kind: self.store_kind, parts: entity_path_parts(self.path) }
    }
}

/// The override that comes from an entity in the blueprint.
pub open spec fn from_blueprint(parts: Seq<Seq<char>>) -> OverrideView {
    OverrideView { store_kind: StoreKind::Blueprint, parts }
}

impl OverridePath {
    /// The override that comes from an entity in the blueprint.
    pub fn blueprint_path(path: EntityPath) -> (r: OverridePath)
        ensures
            r@ == from_blueprint(entity_path_parts(path)),
    {
        OverridePath { store_kind: StoreKind::Blueprint, path }
    }
}

impl Clone for OverridePath {
    fn clone(&self) -> (r: OverridePath)
        ensures
            r == *self,
    {
        OverridePath { store_kind: self.store_kind, path: clone_path(&self.path) }
    }
}

/// Overrides of components, at most one for each.
#[derive(Debug)]
pub struct OverrideMap {
    pub entries: Vec<(ComponentName, OverridePath)>,
}

/// The overrides in a list; a later one takes the place of an earlier one.
pub open spec fn overrides_in(entries: Seq<(ComponentName, OverridePath)>) -> Map<
    Seq<char>,
    OverrideView,
>
    decreases entries.len(),
{
    if entries.len() == 0 {
        Map::empty()
    } else {
        overrides_in(entries.drop_last()).insert(entries.last().0@, entries.last().1@)
    }
}

impl View for OverrideMap {
    type V = Map<Seq<char>, OverrideView>;

    open spec fn view(&self) -> Map<Seq<char>, OverrideView> {
        overrides_in(self.entries@)
    }
}

proof fn lemma_override_replaced(
    entries: Seq<(ComponentName, OverridePath)>,
    i: int,
    entry: (ComponentName, OverridePath),
)
    requires
        0 <= i < entries.len(),
        entries[i].0@ == entry.0@,
        forall|j: int| i < j < entries.len() ==> (#[trigger] entries[j]).0@ != entry.0@,
    ensures
        overrides_in(entries.update(i, entry)) == overrides_in(entries).insert(
            entry.0@,
            entry.1@,
        ),
    decreases entries.len(),
{
    let after = entries.update(i, entry);
    if i == entries.len() - 1 {
        assert(after.drop_last() =~= entries.drop_last());
    } else {
        assert(after.drop_last() =~= entries.drop_last().update(i, entry));
        lemma_override_replaced(entries.drop_last(), i, entry);
        assert(entries[entries.len() - 1].0@ != entry.0@);
    }
    assert(overrides_in(after) =~= overrides_in(entries).insert(entry.0@, entry.1@));
}

impl OverrideMap {
    /// Whether no component is overridden twice.
    pub open spec fn wf(self) -> bool {
        forall|i: int, j: int|
            #![trigger self.entries@[i], self.entries@[j]]
            0 <= i < j < self.entries@.len() ==> self.entries@[i].0@ != self.entries@[j].0@
    }

    pub fn new() -> (r: OverrideMap)
        ensures
            r.wf(),
            r@ == Map::<Seq<char>, OverrideView>::empty(),
    {
        OverrideMap { entries: Vec::new() }
    }

    pub fn is_empty(&self) -> (r: bool)
        ensures
            r == (self@ == Map::<Seq<char>, OverrideView>::empty()),
    {
        proof {
            if self.entries@.len() > 0 {
                assert(self@.contains_key(self.entries@.last().0@));
            }
        }
        self.entries.len() == 0
    }

    /// Overrides a component.
    pub fn insert(&mut self, component: ComponentName, path: OverridePath)
        requires
            old(self).wf(),
        ensures
            final(self).wf(),
            final(self)@ == old(self)@.insert(component@, path@),
    {
        let mut i: usize = 0;
        while i < self.entries.len()
            invariant
                i <= self.entries@.len(),
                *self == *old(self),
                self.wf(),
                forall|j: int| 0 <= j < i ==> (#[trigger] self.entries@[j]).0@ != component@,
            decreases self.entries@.len() - i,
        {
            if self.entries[i].0.is(&component) {
                proof {
                    assert forall|j: int| i < j < self.entries@.len() implies (
                    #[trigger] self.entries@[j]).0@ != component@ by {
                        assert(self.entries@[i as int].0@ != self.entries@[j].0@);
                    }
                    lemma_override_replaced(self.entries@, i as int, (component, path));
                }
                self.entries.set(i, (component, path));
                return;
            }
            i += 1;
        }
        self.entries.push((component, path));
        assert(self.entries@.drop_last() =~= old(self).entries@);
    }
}

impl Clone for OverrideMap {
    fn clone(&self) -> (r: OverrideMap)
        ensures
            r.entries@ == self.entries@,
    {
        let mut entries: Vec<(ComponentName, OverridePath)> = Vec::new();
        let mut i: usize = 0;
        while i < self.entries.len()
            invariant
                i <= self.entries@.len(),
                entries@ == self.entries@.take(i as int),
            decreases self.entries@.len() - i,
        {
            entries.push((self.entries[i].0, self.entries[i].1.clone()));
            i += 1;
            assert(self.entries@.take(i as int) =~= self.entries@.take(i - 1).push(
                self.entries@[i - 1],
            ));
        }
        assert(self.entries@.take(i as int) =~= self.entries@);
        OverrideMap { entries }
    }
}

/// Which part of a timeline to show.
#[derive(Clone, Copy, Debug, PartialEq, Eq, Structural)]
pub enum QueryRange {
    TimeRange(TimeRange),
    /// Whatever is latest at the time cursor.
    LatestAt,
}

/// A part of a timeline.
#[derive(Clone, Copy, Debug, PartialEq, Eq, Structural)]
pub struct TimeRange {
    pub start: TimeRangeBoundary,
    pub end: TimeRangeBoundary,
}

/// How the blueprint changes the way in which an entity is shown.
pub struct PropertyOverrides {
    /// All properties taken together.
    pub accumulated_properties: EntityProperties,
    /// The properties of this very entity.
    pub individual_properties: Option<EntityProperties>,
    /// The properties of this entity and everything below it.
    pub recursive_properties: Option<EntityProperties>,
    /// Where each overridden component comes from.
    pub resolved_component_overrides: OverrideMap,
    /// Where overrides for this entity and everything below it are kept.
    pub recursive_override_path: EntityPath,
    /// Where overrides for this very entity are kept.
    pub individual_override_path: EntityPath,
    pub query_range: QueryRange,
}

/// What contracts know of overrides.
#[verifier::ext_equal]
pub struct OverridesView {
    pub accumulated_properties: EntityProperties,
    pub individual_properties: Option<EntityProperties>,
    pub recursive_properties: Option<EntityProperties>,
    pub components: Map<Seq<char>, OverrideView>,
    pub recursive_override_path: Seq<Seq<char>>,
    pub individual_override_path: Seq<Seq<char>>,
    pub query_range: QueryRange,
}

impl View for PropertyOverrides {
    type V = OverridesView;

    open spec fn view(&self) -> OverridesView {
        OverridesView {
            accumulated_properties: self.accumulated_properties,
            individual_properties: self.individual_properties,
            recursive_properties: self.recursive_properties,
            components: self.resolved_component_overrides@,
            recursive_override_path: entity_path_parts(self.recursive_override_path),
            individual_override_path: entity_path_parts(self.individual_override_path),
            query_range: self.query_range,
        }
    }
}

// --- Results.

/// An entity that a query found, or one that lies on the way to such an entity.
pub struct DataResult {
    pub entity_path: EntityPath,
    /// What shows the entity.
    pub visualizers: SystemList,
    /// Whether the entity is only there because something below it is.
    pub tree_prefix_only: bool,
    /// What the blueprint changes; nothing until that was worked out.
    pub property_overrides: Option<PropertyOverrides>,
}

/// What contracts know of a result.
#[verifier::ext_equal]
pub struct ResultView {
    pub path: EntityPath,
    pub visualizers: Seq<ViewSystemIdentifier>,
    pub tree_prefix_only: bool,
    pub overrides: Option<OverridesView>,
}

impl View for DataResult {
    type V = ResultView;

    open spec fn view(&self) -> ResultView {
        ResultView {
            path: self.entity_path,
            visualizers: system_list(self.visualizers),
            tree_prefix_only: self.tree_prefix_only,
            overrides: match self.property_overrides {
                Some(overrides) => Some(overrides@),
                None => None,
            },
        }
    }
}

impl DataResult {
    /// What shows the entity.
    pub fn visualizers(&self) -> (r: &[ViewSystemIdentifier])
        ensures
            r@ == self@.visualizers,
    {
        systems_of(&self.visualizers)
    }

    /// All properties taken together, once that was worked out.
    pub fn accumulated_properties(&self) -> (r: Option<&EntityProperties>)
        ensures
            match (r, self@.overrides) {
                (Some(properties), Some(overrides)) => *properties
                    == overrides.accumulated_properties,
                (None, None) => true,
                _ => false,
            },
    {
        match &self.property_overrides {
            Some(overrides) => Some(&overrides.accumulated_properties),
            None => None,
        }
    }

    /// The properties of this very entity, if it has any.
    pub fn individual_properties(&self) -> (r: Option<&EntityProperties>)
        ensures
            match (r, self@.overrides) {
                (Some(properties), Some(overrides)) => overrides.individual_properties == Some(
                    *properties,
                ),
                (None, Some(overrides)) => overrides.individual_properties is None,
                (None, None) => true,
                _ => false,
            },
    {
        match &self.property_overrides {
            Some(overrides) => overrides.individual_properties.as_ref(),
            None => None,
        }
    }

    /// Where overrides for this very entity are kept, once that was worked out.
    pub fn individual_override_path(&self) -> (r: Option<&EntityPath>)
        ensures
            match (r, self@.overrides) {
                (Some(path), Some(overrides)) => entity_path_parts(*path)
                    == overrides.individual_override_path,
                (None, None) => true,
                _ => false,
            },
    {
        match &self.property_overrides {
            Some(overrides) => Some(&overrides.individual_override_path),
            None => None,
        }
    }

    /// Where overrides for this entity and everything below it are kept, once that was worked out.
    pub fn recursive_override_path(&self) -> (r: Option<&EntityPath>)
        ensures
            match (r, self@.overrides) {
                (Some(path), Some(overrides)) => entity_path_parts(*path)
                    == overrides.recursive_override_path,
                (None, None) => true,
                _ => false,
            },
    {
        match &self.property_overrides {
            Some(overrides) => Some(&overrides.recursive_override_path),
            None => None,
        }
    }
}

/// A result and where to find those below it.
pub struct DataResultNode {
    pub data_result: DataResult,
    pub children: HandleList,
}

/// Where to find a node.
pub type DataResultHandle = u64;

/// All nodes, in a `slotmap::SlotMap`.
#[verifier::external_body]
pub struct NodeMap {
    inner: slotmap::SlotMap<slotmap::DefaultKey, DataResultNode>,
}

/// The nodes under their handles, which are the keys as numbers.
pub uninterp spec fn node_map(nodes: NodeMap) -> Map<DataResultHandle, DataResultNode>;

/// A map without nodes.
///
/// Calls `SlotMap::new`.
#[verifier::external_body]
pub(crate) fn new_node_map() -> (r: NodeMap)
    ensures
        node_map(r).dom() == Set::<DataResultHandle>::empty(),
{
    NodeMap { inner: slotmap::SlotMap::new() }
}

/// Adds a node under a handle that no other node has.
///
/// Calls `SlotMap::insert`, which panics if the map is full, and `KeyData::as_ffi` on the key that
/// it returns.
#[verifier::external_body]
pub(crate) fn insert_node(nodes: &mut NodeMap, node: DataResultNode) -> (r: DataResultHandle)
    requires
        node_map(*old(nodes)).dom().finite(),
        node_map(*old(nodes)).len() < 0xffff_fffe,
    ensures
        !node_map(*old(nodes)).contains_key(r),
        node_map(*final(nodes)) == node_map(*old(nodes)).insert(r, node),
{
    slotmap::Key::data(&nodes.inner.insert(node)).as_ffi()
}

/// The node under a handle.
///
/// Indexes a `SlotMap` by the key that `KeyData::from_ffi` gives back for the handle; a key that is
/// not in the map would panic.
#[verifier::external_body]
pub(crate) fn node_at_handle(nodes: &NodeMap, handle: DataResultHandle) -> (r: &DataResultNode)
    requires
        node_map(*nodes).contains_key(handle),
    ensures
        *r == node_map(*nodes)[handle],
{
    &nodes.inner[slotmap::DefaultKey::from(slotmap::KeyData::from_ffi(handle))]
}

/// The node under a handle, to change it.
///
/// Indexes a `SlotMap` by the key that `KeyData::from_ffi` gives back for the handle; a key that is
/// not in the map would panic.
#[verifier::external_body]
pub(crate) fn node_at_handle_mut(nodes: &mut NodeMap, handle: DataResultHandle) -> (r:
    &mut DataResultNode)
    requires
        node_map(*old(nodes)).contains_key(handle),
    ensures
        *r == node_map(*old(nodes))[handle],
        node_map(*final(nodes)) == node_map(*old(nodes)).insert(handle, *final(r)),
{
    &mut nodes.inner[slotmap::DefaultKey::from(slotmap::KeyData::from_ffi(handle))]
}

} // verus!

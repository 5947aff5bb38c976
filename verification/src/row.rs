//! Cells, rows, and the differences that adding and removing rows makes to a store.
use crate::names::{
    share, ComponentName, InternedStr, RowId, SpaceViewClassIdentifier, StoreId, TimeInt, Timeline,
    ViewSystemIdentifier, TIME_MIN,
};
use crate::path::clone_path;
use re_log_types::EntityPath;
use std::sync::Arc;
use vstd::prelude::*;

verus! {

/// A value that the user may have edited; if not, it is whatever the system came up with.
#[derive(Clone, Copy, Debug, PartialEq, Eq, Structural)]
pub enum EditableAutoValue {
    UserEdited(u64),
    Auto(u64),
}

impl EditableAutoValue {
    pub open spec fn or_spec(self, other: EditableAutoValue) -> EditableAutoValue {
        if self is UserEdited {
            self
        } else {
            other
        }
    }

    /// This value if the user edited it, the other one if not.
    pub fn or(&self, other: &EditableAutoValue) -> (r: EditableAutoValue)
        ensures
            r == self.or_spec(*other),
    {
        match self {
            EditableAutoValue::UserEdited(_) => *self,
            EditableAutoValue::Auto(_) => *other,
        }
    }
}

/// Properties of an entity that are not components of their own.
#[derive(Clone, Copy, Debug, PartialEq, Eq, Structural)]
pub struct EntityProperties {
    /// Whether hovering and selecting works on the entity.
    pub interactive: bool,
    pub color_mapper: EditableAutoValue,
    pub pinhole_image_plane_distance: EditableAutoValue,
    pub backproject_depth: EditableAutoValue,
    pub depth_from_world_scale: EditableAutoValue,
    pub backproject_radius_scale: EditableAutoValue,
    pub time_series_aggregator: EditableAutoValue,
}

impl EntityProperties {
    /// Interactive, and with nothing edited.
    pub open spec fn default_spec() -> EntityProperties {
        EntityProperties {
            interactive: true,
            color_mapper: EditableAutoValue::Auto(0),
            pinhole_image_plane_distance: EditableAutoValue::Auto(0),
            backproject_depth: EditableAutoValue::Auto(0),
            depth_from_world_scale: EditableAutoValue::Auto(0),
            backproject_radius_scale: EditableAutoValue::Auto(0),
            time_series_aggregator: EditableAutoValue::Auto(0),
        }
    }

    /// An entity is interactive only if everything above it is; of the other properties, what was
    /// edited here wins over what comes from the child.
    pub open spec fn with_child_spec(self, child: EntityProperties) -> EntityProperties {
        EntityProperties {
            interactive: self.interactive && child.interactive,
            color_mapper: self.color_mapper.or_spec(child.color_mapper),
            pinhole_image_plane_distance: self.pinhole_image_plane_distance.or_spec(
                child.pinhole_image_plane_distance,
            ),
            backproject_depth: self.backproject_depth.or_spec(child.backproject_depth),
            depth_from_world_scale: self.depth_from_world_scale.or_spec(
                child.depth_from_world_scale,
            ),
            backproject_radius_scale: self.backproject_radius_scale.or_spec(
                child.backproject_radius_scale,
            ),
            time_series_aggregator: self.time_series_aggregator.or_spec(
                child.time_series_aggregator,
            ),
        }
    }

    /// Multiplies the properties of an entity with those of something below it.
    pub fn with_child(&self, child: &EntityProperties) -> (r: EntityProperties)
        ensures
            r == self.with_child_spec(*child),
    {
        EntityProperties {
            interactive: self.interactive && child.interactive,
            color_mapper: self.color_mapper.or(&child.color_mapper),
            pinhole_image_plane_distance: self.pinhole_image_plane_distance.or(
                &child.pinhole_image_plane_distance,
            ),
            backproject_depth: self.backproject_depth.or(&child.backproject_depth),
            depth_from_world_scale: self.depth_from_world_scale.or(&child.depth_from_world_scale),
            backproject_radius_scale: self.backproject_radius_scale.or(
                &child.backproject_radius_scale,
            ),
            time_series_aggregator: self.time_series_aggregator.or(&child.time_series_aggregator),
        }
    }
}

impl Default for EntityProperties {
    fn default() -> (r: EntityProperties)
        ensures
            r == EntityProperties::default_spec(),
    {
        EntityProperties {
            interactive: true,
            color_mapper: EditableAutoValue::Auto(0),
            pinhole_image_plane_distance: EditableAutoValue::Auto(0),
            backproject_depth: EditableAutoValue::Auto(0),
            depth_from_world_scale: EditableAutoValue::Auto(0),
            backproject_radius_scale: EditableAutoValue::Auto(0),
            time_series_aggregator: EditableAutoValue::Auto(0),
        }
    }
}

/// One end of a time range that is shown, counted in the timeline's own unit.
#[derive(Clone, Copy, Debug, PartialEq, Eq, Structural)]
pub enum TimeRangeBoundary {
    CursorRelative(i64),
    Absolute(i64),
    Infinite,
}

/// The time range of one timeline that is shown.
#[derive(Clone, Copy, Debug, PartialEq, Eq)]
pub struct VisibleTimeRange {
    pub timeline: InternedStr,
    pub start: TimeRangeBoundary,
    pub end: TimeRangeBoundary,
}

/// What a cell holds, as far as anything here reads it.
#[derive(Debug)]
pub enum CellValue {
    /// Data that is stored and handed out, and never looked into.
    Other(u64),
    ClearIsRecursive(bool),
    EntityProperties(EntityProperties),
    VisualizerOverrides(Vec<ViewSystemIdentifier>),
    VisibleTimeRanges(Vec<VisibleTimeRange>),
    QueryExpressions(Vec<String>),
    SpaceViewClass(SpaceViewClassIdentifier),
    SpaceViewOrigin(String),
    Visible(bool),
    Name(String),
}

/// How the instances in a cell are laid out.
#[derive(Clone, Copy, Debug, PartialEq, Eq, Structural)]
pub struct DataType {
    pub id: u64,
    /// What a cell of this type that holds no instances takes up.
    pub empty_size_bytes: u64,
}

/// The instances of one component in one row.
///
/// Cheap to clone: the data is shared.
#[derive(Debug)]
pub struct DataCell {
    pub component_name: ComponentName,
    pub num_instances: u32,
    /// What the data takes up, in bytes.
    pub size_bytes: u64,
    pub datatype: DataType,
    pub value: Arc<CellValue>,
}

impl Clone for DataCell {
    fn clone(&self) -> (r: DataCell)
        ensures
            r == *self,
    {
        DataCell {
            component_name: self.component_name,
            num_instances: self.num_instances,
            size_bytes: self.size_bytes,
            datatype: self.datatype,
            value: share(&self.value),
        }
    }
}

impl DataCell {
    /// A cell with no instances.
    pub open spec fn empty_spec(component_name: ComponentName, datatype: DataType) -> DataCell {
        DataCell {
            component_name,
            num_instances: 0,
            size_bytes: datatype.empty_size_bytes,
            datatype,
            value: Arc::new(CellValue::Other(0)),
        }
    }

    pub fn new(
        component_name: ComponentName,
        num_instances: u32,
        size_bytes: u64,
        datatype: DataType,
        value: CellValue,
    ) -> (r: DataCell)
        ensures
            r.component_name == component_name,
            r.num_instances == num_instances,
            r.size_bytes == size_bytes,
            r.datatype == datatype,
            *r.value == value,
    {
        DataCell { component_name, num_instances, size_bytes, datatype, value: Arc::new(value) }
    }

    /// A cell of the given type with no instances.
    pub fn from_arrow_empty(component_name: ComponentName, datatype: DataType) -> (r: DataCell)
        ensures
            r == DataCell::empty_spec(component_name, datatype),
    {
        DataCell {
            component_name,
            num_instances: 0,
            size_bytes: datatype.empty_size_bytes,
            datatype,
            value: Arc::new(CellValue::Other(0)),
        }
    }

    pub fn num_instances(&self) -> (r: u32)
        ensures
            r == self.num_instances,
    {
        self.num_instances
    }

    pub fn is_empty(&self) -> (r: bool)
        ensures
            r == (self.num_instances == 0),
    {
        self.num_instances == 0
    }
}

/// A copy of every cell, in order.
pub fn clone_cells(cells: &Vec<DataCell>) -> (r: Vec<DataCell>)
    ensures
        r@ == cells@,
{
    let mut out: Vec<DataCell> = Vec::new();
    let mut i: usize = 0;
    while i < cells.len()
        invariant
            i <= cells.len(),
            out@ == cells@.take(i as int),
        decreases cells.len() - i,
    {
        out.push(cells[i].clone());
        i += 1;
        assert(cells@.take(i as int) == cells@.take(i - 1).push(cells@[i - 1]));
    }
    assert(cells@.take(cells@.len() as int) == cells@);
    out
}

// ---

/// A moment on any number of timelines, at most one time on each; on none if it is static.
#[derive(Debug)]
pub struct TimePoint {
    pub times: Vec<(Timeline, TimeInt)>,
}

/// Whether no timeline is named twice.
pub open spec fn timelines_distinct(times: Seq<(Timeline, TimeInt)>) -> bool {
    forall|i: int, j: int|
        #![trigger times[i], times[j]]
        0 <= i < j < times.len() ==> times[i].0@ != times[j].0@
}

/// Whether no time is the marker for static data.
pub open spec fn times_temporal(times: Seq<(Timeline, TimeInt)>) -> bool {
    forall|i: int| 0 <= i < times.len() ==> (#[trigger] times[i]).1.value >= TIME_MIN
}

/// Whether a timeline is among those that have a time.
pub open spec fn has_timeline(times: Seq<(Timeline, TimeInt)>, timeline: Timeline) -> bool {
    exists|i: int| 0 <= i < times.len() && (#[trigger] times[i]).0@ == timeline@
}

/// The later of two times.
pub open spec fn later(a: TimeInt, b: TimeInt) -> TimeInt {
    if a.value >= b.value {
        a
    } else {
        b
    }
}

/// What becomes of the times when one more is taken in: on a timeline that has one already the
/// later one stays, on any other the new one is added.
pub open spec fn put_latest(times: Seq<(Timeline, TimeInt)>, timeline: Timeline, time: TimeInt)
    -> Seq<(Timeline, TimeInt)>
    decreases times.len(),
{
    if times.len() == 0 {
        seq![(timeline, time)]
    } else if times.last().0@ == timeline@ {
        times.drop_last().push((times.last().0, later(times.last().1, time)))
    } else {
        let rest = put_latest(times.drop_last(), timeline, time);
        if has_timeline(times.drop_last(), timeline) {
            rest.push(times.last())
        } else {
            times.push((timeline, time))
        }
    }
}

/// The position of a timeline among the times.
pub fn find_timeline(times: &Vec<(Timeline, TimeInt)>, timeline: &Timeline) -> (r: Option<usize>)
    ensures
        match r {
            Some(i) => i < times@.len() && times@[i as int].0@ == timeline@ && (forall|j: int|
                0 <= j < i ==> (#[trigger] times@[j]).0@ != timeline@),
            None => !has_timeline(times@, *timeline),
        },
{
    let mut i: usize = 0;
    while i < times.len()
        invariant
            i <= times.len(),
            forall|j: int| 0 <= j < i ==> (#[trigger] times@[j]).0@ != timeline@,
        decreases times.len() - i,
    {
        if times[i].0.is(timeline) {
            return Some(i);
        }
        i += 1;
    }
    None
}

proof fn lemma_put_latest_found(
    times: Seq<(Timeline, TimeInt)>,
    timeline: Timeline,
    time: TimeInt,
    i: int,
)
    requires
        0 <= i < times.len(),
        times[i].0@ == timeline@,
        timelines_distinct(times),
    ensures
        put_latest(times, timeline, time) == times.update(
            i,
            (times[i].0, later(times[i].1, time)),
        ),
    decreases times.len(),
{
    if i < times.len() - 1 {
        assert(times.last().0@ != timeline@);
        assert(times.drop_last()[i].0@ == timeline@);
        lemma_put_latest_found(times.drop_last(), timeline, time, i);
    }
    assert(put_latest(times, timeline, time) =~= times.update(
        i,
        (times[i].0, later(times[i].1, time)),
    ));
}

proof fn lemma_put_latest_new(times: Seq<(Timeline, TimeInt)>, timeline: Timeline, time: TimeInt)
    requires
        !has_timeline(times, timeline),
    ensures
        put_latest(times, timeline, time) == times.push((timeline, time)),
{
    if times.len() > 0 {
        assert(times.last().0@ != timeline@);
        assert forall|j: int| 0 <= j < times.drop_last().len() implies (
        #[trigger] times.drop_last()[j]).0@ != timeline@ by {
            assert(times[j].0@ != timeline@);
        }
    } else {
        assert(times.push((timeline, time)) =~= seq![(timeline, time)]);
    }
}

/// Law: a time that is taken in leaves those on other timelines alone. On its own timeline, the
/// later time stays.
pub proof fn law_the_later_time_stays(
    times: Seq<(Timeline, TimeInt)>,
    timeline: Timeline,
    time: TimeInt,
)
    requires
        timelines_distinct(times),
    ensures
        ({
            let after = put_latest(times, timeline, time);
            &&& forall|i: int|
                0 <= i < times.len() ==> {
                    &&& (#[trigger] after[i]).0 == times[i].0
                    &&& times[i].0@ != timeline@ ==> after[i].1 == times[i].1
                    &&& times[i].0@ == timeline@ ==> after[i].1.value >= times[i].1.value
                        && after[i].1.value >= time.value && (after[i].1 == times[i].1
                        || after[i].1 == time)
                }
            &&& if has_timeline(times, timeline) {
                after.len() == times.len()
            } else {
                after.len() == times.len() + 1 && after.last() == (timeline, time)
            }
        }),
{
    if has_timeline(times, timeline) {
        let i = choose|i: int| 0 <= i < times.len() && (#[trigger] times[i]).0@ == timeline@;
        assert forall|j: int| 0 <= j < times.len() && j != i implies (#[trigger] times[j]).0@
            != timeline@ by {
            if j < i {
                assert(times[j].0@ != times[i].0@);
            } else {
                assert(times[i].0@ != times[j].0@);
            }
        }
        lemma_put_latest_found(times, timeline, time, i);
    } else {
        lemma_put_latest_new(times, timeline, time);
    }
}

impl TimePoint {
    pub open spec fn wf(self) -> bool {
        timelines_distinct(self.times@) && times_temporal(self.times@)
    }

    pub open spec fn is_static_spec(self) -> bool {
        self.times@.len() == 0
    }

    /// The moment of static data: on no timeline at all.
    pub fn timeless() -> (r: TimePoint)
        ensures
            r.wf(),
            r.times@ == Seq::<(Timeline, TimeInt)>::empty(),
    {
        TimePoint { times: Vec::new() }
    }

    pub fn is_static(&self) -> (r: bool)
        ensures
            r == self.is_static_spec(),
    {
        self.times.len() == 0
    }

    /// Adds a time; on a timeline that has one already the later one stays.
    pub fn put_latest(&mut self, timeline: Timeline, time: TimeInt)
        requires
            old(self).wf(),
            time.value >= TIME_MIN,
        ensures
            final(self).wf(),
            final(self).times@ == put_latest(old(self).times@, timeline, time),
    {
        match find_timeline(&self.times, &timeline) {
            Some(i) => {
                let entry = self.times[i];
                proof {
                    lemma_put_latest_found(self.times@, timeline, time, i as int);
                }
                if time.value > entry.1.value {
                    self.times.set(i, (entry.0, time));
                }
                assert(self.times@ =~= put_latest(old(self).times@, timeline, time));
            },
            None => {
                proof {
                    lemma_put_latest_new(self.times@, timeline, time);
                }
                self.times.push((timeline, time));
            },
        }
    }
}

impl Clone for TimePoint {
    fn clone(&self) -> (r: TimePoint)
        ensures
            r.times@ == self.times@,
    {
        TimePoint { times: clone_times(&self.times) }
    }
}

/// A copy of the times, in order.
pub fn clone_times(times: &Vec<(Timeline, TimeInt)>) -> (r: Vec<(Timeline, TimeInt)>)
    ensures
        r@ == times@,
{
    let mut out: Vec<(Timeline, TimeInt)> = Vec::new();
    let mut i: usize = 0;
    while i < times.len()
        invariant
            i <= times.len(),
            out@ == times@.take(i as int),
        decreases times.len() - i,
    {
        out.push(times[i]);
        i += 1;
        assert(times@.take(i as int) == times@.take(i - 1).push(times@[i - 1]));
    }
    assert(times@.take(times@.len() as int) == times@);
    out
}

// ---

/// Whether no component has more than one cell.
pub open spec fn components_distinct(cells: Seq<DataCell>) -> bool {
    forall|i: int, j: int|
        #![trigger cells[i], cells[j]]
        0 <= i < j < cells.len() ==> cells[i].component_name@ != cells[j].component_name@
}

/// Whether there is a cell for a component.
pub open spec fn has_component(cells: Seq<DataCell>, component: Seq<char>) -> bool {
    exists|i: int| 0 <= i < cells.len() && (#[trigger] cells[i]).component_name@ == component
}

/// The position of the cell for a component.
pub fn find_component(cells: &Vec<DataCell>, component: &ComponentName) -> (r: Option<usize>)
    ensures
        match r {
            Some(i) => i < cells@.len() && cells@[i as int].component_name@ == component@ && (forall
                |j: int|
                0 <= j < i ==> (#[trigger] cells@[j]).component_name@ != component@),
            None => !has_component(cells@, component@),
        },
{
    let mut i: usize = 0;
    while i < cells.len()
        invariant
            i <= cells.len(),
            forall|j: int| 0 <= j < i ==> (#[trigger] cells@[j]).component_name@ != component@,
        decreases cells.len() - i,
    {
        if cells[i].component_name.is(component) {
            return Some(i);
        }
        i += 1;
    }
    None
}

/// Everything that was logged to one entity at one moment.
#[derive(Debug)]
pub struct DataRow {
    pub row_id: RowId,
    pub timepoint: TimePoint,
    pub entity_path: EntityPath,
    pub cells: Vec<DataCell>,
}

/// What contracts know of a row.
#[verifier::ext_equal]
pub struct RowView {
    pub row_id: RowId,
    pub times: Seq<(Timeline, TimeInt)>,
    pub entity_path: EntityPath,
    pub cells: Seq<DataCell>,
}

impl View for DataRow {
    type V = RowView;

    open spec fn view(&self) -> RowView {
        RowView {
            row_id: self.row_id,
            times: self.timepoint.times@,
            entity_path: self.entity_path,
            cells: self.cells@,
        }
    }
}

/// Why cells do not make up a row.
#[derive(Clone, Copy, Debug, PartialEq, Eq)]
pub enum DataRowError {
    /// The component that has more than one cell.
    DupedComponent(ComponentName),
}

impl Clone for DataRow {
    fn clone(&self) -> (r: DataRow)
        ensures
            r@ == self@,
    {
        DataRow {
            row_id: self.row_id,
            timepoint: self.timepoint.clone(),
            entity_path: clone_path(&self.entity_path),
            cells: clone_cells(&self.cells),
        }
    }
}

impl DataRow {
    pub open spec fn wf(self) -> bool {
        self.timepoint.wf() && components_distinct(self.cells@)
    }

    pub fn row_id(&self) -> (r: RowId)
        ensures
            r == self.row_id,
    {
        self.row_id
    }

    pub fn num_cells(&self) -> (r: usize)
        ensures
            r == self.cells@.len(),
    {
        self.cells.len()
    }

    /// Puts cells together into a row.
    ///
    /// Fails if a component has more than one cell.
    pub fn from_cells(
        row_id: RowId,
        timepoint: TimePoint,
        entity_path: EntityPath,
        cells: Vec<DataCell>,
    ) -> (r: Result<DataRow, DataRowError>)
        requires
            timepoint.wf(),
        ensures
            r is Ok <==> components_distinct(cells@),
            match r {
                Ok(row) => row.wf() && row == (DataRow { row_id, timepoint, entity_path, cells }),
                Err(DataRowError::DupedComponent(name)) => exists|i: int, j: int|
                    0 <= i < j < cells@.len() && (#[trigger] cells@[i]).component_name@ == name@
                        && (#[trigger] cells@[j]).component_name@ == name@,
            },
    {
        let mut i: usize = 0;
        while i < cells.len()
            invariant
                i <= cells.len(),
                components_distinct(cells@.take(i as int)),
            decreases cells.len() - i,
        {
            let name = cells[i].component_name;
            match find_component(&cells, &name) {
                Some(j) if j < i => {
                    return Err(DataRowError::DupedComponent(name));
                },
                _ => {},
            }
            assert forall|k: int| 0 <= k < i implies (#[trigger] cells@[k]).component_name@
                != name@ by {
                assert(cells@[i as int].component_name@ == name@);
            }
            i += 1;
            assert forall|a: int, b: int|
                #![trigger cells@.take(i as int)[a], cells@.take(i as int)[b]]
                0 <= a < b < i implies cells@.take(i as int)[a].component_name@ != cells@.take(
                i as int,
            )[b].component_name@ by {
                if b < i - 1 {
                    assert(cells@.take(i - 1)[a].component_name@ != cells@.take(
                        i - 1,
                    )[b].component_name@);
                }
            }
        }
        assert(cells@.take(i as int) == cells@);
        Ok(DataRow { row_id, timepoint, entity_path, cells })
    }
}

// ---

/// Whether a difference adds to a store or takes away from it.
#[derive(Clone, Copy, Debug, PartialEq, Eq, Structural)]
pub enum StoreDiffKind {
    Addition,
    Deletion,
}

/// What adding or removing one row changes: where the row was, and what it held.
#[derive(Debug)]
pub struct StoreDiff {
    pub kind: StoreDiffKind,
    pub row_id: RowId,
    pub times: Vec<(Timeline, TimeInt)>,
    pub entity_path: EntityPath,
    pub cells: Vec<DataCell>,
}

/// What contracts know of a [`StoreDiff`].
#[verifier::ext_equal]
pub struct DiffView {
    pub kind: StoreDiffKind,
    pub row_id: RowId,
    pub times: Seq<(Timeline, TimeInt)>,
    pub entity_path: EntityPath,
    pub cells: Seq<DataCell>,
}

impl View for StoreDiff {
    type V = DiffView;

    open spec fn view(&self) -> DiffView {
        DiffView {
            kind: self.kind,
            row_id: self.row_id,
            times: self.times@,
            entity_path: self.entity_path,
            cells: self.cells@,
        }
    }
}

/// What becomes of the cells of a difference when one more comes in: it takes the place of the cell
/// of the same component, if there is one.
pub open spec fn put_cell(cells: Seq<DataCell>, cell: DataCell) -> Seq<DataCell> {
    if has_component(cells, cell.component_name@) {
        let i = choose|i: int|
            0 <= i < cells.len() && (#[trigger] cells[i]).component_name@ == cell.component_name@
                && (forall|j: int|
                0 <= j < i ==> (#[trigger] cells[j]).component_name@ != cell.component_name@);
        cells.update(i, cell)
    } else {
        cells.push(cell)
    }
}

impl StoreDiff {
    /// A deletion that removes nothing yet.
    pub open spec fn deletion_spec(row_id: RowId, entity_path: EntityPath) -> DiffView {
        DiffView {
            kind: StoreDiffKind::Deletion,
            row_id,
            times: Seq::empty(),
            entity_path,
            cells: Seq::empty(),
        }
    }

    pub fn deletion(row_id: RowId, entity_path: EntityPath) -> (r: StoreDiff)
        ensures
            r@ == StoreDiff::deletion_spec(row_id, entity_path),
    {
        StoreDiff {
            kind: StoreDiffKind::Deletion,
            row_id,
            times: Vec::new(),
            entity_path,
            cells: Vec::new(),
        }
    }

    /// Says that the row was on a timeline, and when.
    pub fn at_timestamp(&mut self, timeline: Timeline, time: TimeInt)
        ensures
            final(self)@ == (DiffView { times: old(self)@.times.push((timeline, time)), ..old(self)@ }),
    {
        self.times.push((timeline, time));
    }

    /// Says that the row held a cell. There is one cell per component: the last one.
    pub fn insert(&mut self, cell: DataCell)
        ensures
            final(self)@ == (DiffView { cells: put_cell(old(self)@.cells, cell), ..old(self)@ }),
    {
        match find_component(&self.cells, &cell.component_name) {
            Some(i) => {
                proof {
                    let cells = self.cells@;
                    let name = cell.component_name@;
                    assert(cells[i as int].component_name@ == name);
                    assert(has_component(cells, name));
                    let k = choose|k: int|
                        0 <= k < cells.len() && (#[trigger] cells[k]).component_name@ == name && (
                        forall|j: int|
                            0 <= j < k ==> (#[trigger] cells[j]).component_name@ != name);
                    assert(k == i) by {
                        if k < i {
                            assert(cells[k].component_name@ != name);
                        } else if i < k {
                            assert(cells[i as int].component_name@ != name);
                        }
                    }
                }
                self.cells.set(i, cell);
            },
            None => {
                self.cells.push(cell);
            },
        }
    }
}

impl Clone for StoreDiff {
    fn clone(&self) -> (r: StoreDiff)
        ensures
            r@ == self@,
    {
        StoreDiff {
            kind: self.kind,
            row_id: self.row_id,
            times: clone_times(&self.times),
            entity_path: clone_path(&self.entity_path),
            cells: clone_cells(&self.cells),
        }
    }
}

/// Which state of a store an event belongs to.
#[derive(Clone, Copy, Debug, PartialEq, Eq, Structural)]
pub struct StoreGeneration {
    pub insert_id: u64,
    pub gc_id: u64,
}

/// A difference together with the store that it happened to.
#[derive(Debug)]
pub struct StoreEvent {
    pub store_id: StoreId,
    pub store_generation: StoreGeneration,
    pub event_id: u64,
    pub diff: StoreDiff,
}

/// What each of several differences is to contracts.
pub open spec fn diff_views(diffs: Seq<StoreDiff>) -> Seq<DiffView> {
    Seq::new(diffs.len(), |i: int| diffs[i]@)
}

/// What happened in each of several events.
pub open spec fn event_diffs(events: Seq<StoreEvent>) -> Seq<DiffView> {
    Seq::new(events.len(), |i: int| events[i].diff@)
}

} // verus!

//! What is saved about views, put together from components.
use crate::components::{
    space_view_blueprint_components, space_view_contents_components,
    visible_time_ranges_components,
};
use crate::data_result::TimeRange;
use crate::entity_db::EntityDb;
use crate::entries::{entry_of, Entry};
use crate::filter::string_views;
use crate::names::{
    text_eq, ComponentName, RowId, SpaceViewClassIdentifier, TimeInt, TIME_STATIC,
};
use crate::path::entity_path_hash;
use crate::row::{CellValue, DataCell, VisibleTimeRange};
use crate::store::{latest_entry, LatestAtQuery, StoreView};
use re_log_types::EntityPath;
use vstd::prelude::*;

verus! {

/// What comes of asking for data that may not have arrived yet.
pub enum PromiseResult<T> {
    Pending,
    Ready(T),
    /// The component that holds something that it should not.
    Error(ComponentName),
}

impl<T> PromiseResult<T> {
    pub open spec fn ok_spec(self) -> Option<T> {
        match self {
            PromiseResult::Ready(value) => Some(value),
            _ => None,
        }
    }

    /// What arrived, if anything did.
    pub fn ok(self) -> (r: Option<T>)
        ensures
            r == self.ok_spec(),
    {
        match self {
            PromiseResult::Ready(value) => Some(value),
            _ => None,
        }
    }
}

/// Why components could not be put together.
pub enum AssemblyError {
    /// The component without which there is nothing was never logged.
    PrimaryNotFound,
    /// The component without which there is nothing was cleared.
    MissingData,
    /// A component holds something that it should not.
    Mismatch(ComponentName),
}

/// Something that is saved as several components.
pub trait Archetype: View + Sized {
    /// The names of the components, in order.
    spec fn component_names() -> Seq<Seq<char>>;

    /// What the components make up, given what was found of each.
    spec fn assembled(found: Seq<Option<Entry>>) -> Result<<Self as View>::V, AssemblyError>;

    /// The names of the components, in order.
    fn all_components() -> (r: Vec<ComponentName>)
        ensures
            r@.len() == Self::component_names().len(),
            forall|i: int|
                0 <= i < r@.len() ==> (#[trigger] r@[i])@ == Self::component_names()[i],
    ;

    /// Puts the components together.
    fn assemble(found: &Vec<Option<(TimeInt, RowId, DataCell)>>) -> (r: Result<Self, AssemblyError>)
        requires
            found@.len() == Self::component_names().len(),
        ensures
            assembly(r) == Self::assembled(found_entries(found@)),
    ;
}

/// What contracts know of something that was put together.
pub open spec fn assembly<A: View>(r: Result<A, AssemblyError>) -> Result<
    <A as View>::V,
    AssemblyError,
> {
    match r {
        Ok(archetype) => Ok(archetype@),
        Err(error) => Err(error),
    }
}

pub open spec fn found_entries(found: Seq<Option<(TimeInt, RowId, DataCell)>>) -> Seq<
    Option<Entry>,
> {
    Seq::new(found.len(), |i: int| entry_of(found[i]))
}

/// What is latest of each of several components.
pub open spec fn latest_entries(
    store: StoreView,
    query: LatestAtQuery,
    hash: u64,
    components: Seq<Seq<char>>,
) -> Seq<Option<Entry>> {
    Seq::new(components.len(), |i: int| latest_entry(store, query, hash, components[i]))
}

/// The latest time, and for that the highest row, among what was found.
pub open spec fn compound_index(found: Seq<Option<Entry>>) -> (i64, RowId)
    decreases found.len(),
{
    if found.len() == 0 {
        (TIME_STATIC, RowId { bits: 0 })
    } else {
        let rest = compound_index(found.drop_last());
        match found.last() {
            Some(entry) => if entry.time > rest.0 || (entry.time == rest.0 && entry.row_id.bits
                > rest.1.bits) {
                (entry.time, entry.row_id)
            } else {
                rest
            },
            None => rest,
        }
    }
}

/// What is handed out: nothing if there is nothing or it was cleared.
pub open spec fn promised<A: View>(
    index: (i64, RowId),
    assembled: Result<<A as View>::V, AssemblyError>,
) -> PromiseResult<Option<((i64, RowId), <A as View>::V)>> {
    match assembled {
        Ok(archetype) => PromiseResult::Ready(Some((index, archetype))),
        Err(AssemblyError::PrimaryNotFound) => PromiseResult::Ready(None),
        Err(AssemblyError::MissingData) => PromiseResult::Ready(None),
        Err(AssemblyError::Mismatch(component)) => PromiseResult::Error(component),
    }
}

/// What contracts know of something that was handed out.
pub open spec fn promise_view<A: View>(
    r: PromiseResult<Option<((TimeInt, RowId), A)>>,
) -> PromiseResult<Option<((i64, RowId), <A as View>::V)>> {
    match r {
        PromiseResult::Pending => PromiseResult::Pending,
        PromiseResult::Ready(Some((index, archetype))) => PromiseResult::Ready(
            Some(((index.0.value, index.1), archetype@)),
        ),
        PromiseResult::Ready(None) => PromiseResult::Ready(None),
        PromiseResult::Error(component) => PromiseResult::Error(component),
    }
}

/// What is saved at an entity.
pub open spec fn archetype_at<A: Archetype>(store: StoreView, query: LatestAtQuery, hash: u64)
    -> PromiseResult<Option<((i64, RowId), <A as View>::V)>> {
    let found = latest_entries(store, query, hash, A::component_names());
    promised::<A>(compound_index(found), A::assembled(found))
}

impl EntityDb {
    /// What is saved at an entity, with the time and the row that it was last changed with.
    pub fn latest_at_archetype<A: Archetype>(
        &self,
        entity_path: &EntityPath,
        query: &LatestAtQuery,
    ) -> (r: PromiseResult<Option<((TimeInt, RowId), A)>>)
        requires
            self.wf(),
        ensures
            promise_view(r) == archetype_at::<A>(
                self@.store,
                *query,
                entity_path_hash(*entity_path),
            ),
    {
        let components = A::all_components();
        let ghost names = A::component_names();
        let ghost entries = latest_entries(
            self@.store,
            *query,
            entity_path_hash(*entity_path),
            names,
        );
        let mut found: Vec<Option<(TimeInt, RowId, DataCell)>> = Vec::new();
        let mut time = TimeInt { value: TIME_STATIC };
        let mut row_id = RowId { bits: 0 };
        let mut i: usize = 0;
        while i < components.len()
            invariant
                i <= components@.len(),
                self.wf(),
                components@.len() == names.len(),
                forall|j: int| 0 <= j < names.len() ==> (#[trigger] components@[j])@ == names[j],
                entries == latest_entries(
                    self@.store,
                    *query,
                    entity_path_hash(*entity_path),
                    names,
                ),
                found_entries(found@) == entries.take(i as int),
                (time.value, row_id) == compound_index(entries.take(i as int)),
            decreases components@.len() - i,
        {
            let ghost before = found@;
            let latest = self.data_store.latest_at(query, entity_path, &components[i]);
            proof {
                assert(entries.take(i + 1).drop_last() =~= entries.take(i as int));
                assert(entry_of(latest) == entries[i as int]);
            }
            if let Some((entry_time, entry_row_id, _)) = &latest {
                if entry_time.value > time.value || (entry_time.value == time.value
                    && entry_row_id.bits > row_id.bits) {
                    time = *entry_time;
                    row_id = *entry_row_id;
                }
            }
            found.push(latest);
            assert(found_entries(found@) =~= found_entries(before).push(entries[i as int]));
            assert(found_entries(found@) =~= entries.take(i + 1));
            i += 1;
        }
        assert(entries.take(i as int) =~= entries);
        match A::assemble(&found) {
            Ok(archetype) => PromiseResult::Ready(Some(((time, row_id), archetype))),
            Err(AssemblyError::PrimaryNotFound) => PromiseResult::Ready(None),
            Err(AssemblyError::MissingData) => PromiseResult::Ready(None),
            Err(AssemblyError::Mismatch(component)) => PromiseResult::Error(component),
        }
    }
}

// --- Which part of each timeline to show.

/// The time ranges to show.
pub struct VisibleTimeRanges {
    pub ranges: Vec<VisibleTimeRange>,
}

impl View for VisibleTimeRanges {
    type V = Seq<VisibleTimeRange>;

    open spec fn view(&self) -> Seq<VisibleTimeRange> {
        self.ranges@
    }
}

/// The range for a timeline: the first one, if there are several.
pub open spec fn range_for(ranges: Seq<VisibleTimeRange>, timeline: Seq<char>) -> Option<TimeRange>
    decreases ranges.len(),
{
    if ranges.len() == 0 {
        None
    } else if ranges[0].timeline@ == timeline {
        Some(TimeRange { start: ranges[0].start, end: ranges[0].end })
    } else {
        range_for(ranges.skip(1), timeline)
    }
}

impl VisibleTimeRanges {
    /// The range for a timeline: the first one, if there are several.
    pub fn range_for_timeline(&self, timeline: &str) -> (r: Option<TimeRange>)
        ensures
            r == range_for(self@, timeline@),
    {
        let mut i: usize = 0;
        assert(self@.skip(0) =~= self@);
        while i < self.ranges.len()
            invariant
                i <= self.ranges@.len(),
                range_for(self@, timeline@) == range_for(self@.skip(i as int), timeline@),
            decreases self.ranges@.len() - i,
        {
            assert(self@.skip(i as int).skip(1) =~= self@.skip(i + 1));
            let range = self.ranges[i];
            if text_eq(range.timeline.text, timeline) {
                return Some(TimeRange { start: range.start, end: range.end });
            }
            i += 1;
        }
        None
    }
}

impl Archetype for VisibleTimeRanges {
    open spec fn component_names() -> Seq<Seq<char>> {
        seq![
            "rerun.blueprint.components.VisibleTimeRange"@,
            "rerun.blueprint.components.VisibleTimeRangesIndicator"@,
        ]
    }

    open spec fn assembled(found: Seq<Option<Entry>>) -> Result<
        Seq<VisibleTimeRange>,
        AssemblyError,
    > {
        match found[0] {
            None => Err(AssemblyError::PrimaryNotFound),
            Some(entry) => if entry.cell.num_instances == 0 {
                Ok(Seq::empty())
            } else {
                match *entry.cell.value {
                    CellValue::VisibleTimeRanges(ranges) => Ok(ranges@),
                    _ => Err(AssemblyError::Mismatch(entry.cell.component_name)),
                }
            },
        }
    }

    fn all_components() -> (r: Vec<ComponentName>) {
        visible_time_ranges_components()
    }

    fn assemble(found: &Vec<Option<(TimeInt, RowId, DataCell)>>) -> (r: Result<
        VisibleTimeRanges,
        AssemblyError,
    >) {
        assert(found_entries(found@)[0] == entry_of(found@[0]));
        match &found[0] {
            None => Err(AssemblyError::PrimaryNotFound),
            Some((_, _, cell)) => if cell.is_empty() {
                Ok(VisibleTimeRanges { ranges: Vec::new() })
            } else {
                match &*cell.value {
                    CellValue::VisibleTimeRanges(ranges) => {
                        let mut out: Vec<VisibleTimeRange> = Vec::new();
                        let mut i: usize = 0;
                        while i < ranges.len()
                            invariant
                                i <= ranges@.len(),
                                out@ == ranges@.take(i as int),
                            decreases ranges@.len() - i,
                        {
                            out.push(ranges[i]);
                            i += 1;
                            assert(ranges@.take(i as int) =~= ranges@.take(i - 1).push(
                                ranges@[i - 1],
                            ));
                        }
                        assert(ranges@.take(i as int) =~= ranges@);
                        Ok(VisibleTimeRanges { ranges: out })
                    },
                    _ => Err(AssemblyError::Mismatch(cell.component_name)),
                }
            },
        }
    }
}

// --- What a view is about.

/// A copy of every string, in order.
fn clone_strings(strings: &Vec<String>) -> (r: Vec<String>)
    ensures
        string_views(r@) == string_views(strings@),
{
    let mut out: Vec<String> = Vec::new();
    let mut i: usize = 0;
    while i < strings.len()
        invariant
            i <= strings@.len(),
            out@.len() == i,
            forall|j: int| 0 <= j < i ==> (#[trigger] out@[j])@ == strings@[j]@,
        decreases strings@.len() - i,
    {
        out.push(strings[i].clone());
        i += 1;
    }
    assert(string_views(out@) =~= string_views(strings@));
    out
}

/// The rules by which entities are part of a view, as they were written.
pub struct SavedContents {
    pub query: Vec<String>,
}

impl View for SavedContents {
    type V = Seq<Seq<char>>;

    open spec fn view(&self) -> Seq<Seq<char>> {
        string_views(self.query@)
    }
}

impl Archetype for SavedContents {
    open spec fn component_names() -> Seq<Seq<char>> {
        seq![
            "rerun.blueprint.components.SpaceViewContentsIndicator"@,
            "rerun.blueprint.components.QueryExpression"@,
        ]
    }

    open spec fn assembled(found: Seq<Option<Entry>>) -> Result<Seq<Seq<char>>, AssemblyError> {
        match found[1] {
            None => Ok(Seq::empty()),
            Some(entry) => if entry.cell.num_instances == 0 {
                Ok(Seq::empty())
            } else {
                match *entry.cell.value {
                    CellValue::QueryExpressions(query) => Ok(string_views(query@)),
                    _ => Err(AssemblyError::Mismatch(entry.cell.component_name)),
                }
            },
        }
    }

    fn all_components() -> (r: Vec<ComponentName>) {
        space_view_contents_components()
    }

    fn assemble(found: &Vec<Option<(TimeInt, RowId, DataCell)>>) -> (r: Result<
        SavedContents,
        AssemblyError,
    >) {
        assert(found_entries(found@)[1] == entry_of(found@[1]));
        let out: Vec<String> = Vec::new();
        assert(string_views(out@) =~= Seq::empty());
        match &found[1] {
            None => Ok(SavedContents { query: out }),
            Some((_, _, cell)) => if cell.is_empty() {
                Ok(SavedContents { query: out })
            } else {
                match &*cell.value {
                    CellValue::QueryExpressions(query) => Ok(
                        SavedContents { query: clone_strings(query) },
                    ),
                    _ => Err(AssemblyError::Mismatch(cell.component_name)),
                }
            },
        }
    }
}

// --- The view itself.

/// What is saved of a view.
pub struct SavedSpaceView {
    pub class_identifier: SpaceViewClassIdentifier,
    pub display_name: Option<String>,
    /// A path, written out.
    pub space_origin: Option<String>,
    pub visible: Option<bool>,
}

/// What contracts know of what is saved of a view.
#[verifier::ext_equal]
pub struct SavedSpaceViewView {
    pub class_identifier: SpaceViewClassIdentifier,
    pub display_name: Option<Seq<char>>,
    pub space_origin: Option<Seq<char>>,
    pub visible: Option<bool>,
}

pub open spec fn text_of(text: Option<String>) -> Option<Seq<char>> {
    match text {
        Some(text) => Some(text@),
        None => None,
    }
}

impl View for SavedSpaceView {
    type V = SavedSpaceViewView;

    open spec fn view(&self) -> SavedSpaceViewView {
        SavedSpaceViewView {
            class_identifier: self.class_identifier,
            display_name: text_of(self.display_name),
            space_origin: text_of(self.space_origin),
            visible: self.visible,
        }
    }
}

/// The cell that was found, unless it is empty.
pub open spec fn full_cell(entry: Option<Entry>) -> Option<DataCell> {
    match entry {
        Some(entry) => if entry.cell.num_instances == 0 {
            None
        } else {
            Some(entry.cell)
        },
        None => None,
    }
}

/// The cell that was found, unless it is empty.
fn get_full_cell(found: &Option<(TimeInt, RowId, DataCell)>) -> (r: Option<&DataCell>)
    ensures
        match r {
            Some(cell) => full_cell(entry_of(*found)) == Some(*cell),
            None => full_cell(entry_of(*found)) is None,
        },
{
    match found {
        Some((_, _, cell)) => if cell.is_empty() {
            None
        } else {
            Some(cell)
        },
        None => None,
    }
}

/// The name that a cell holds, if there is one.
pub open spec fn saved_name(cell: Option<DataCell>) -> Result<Option<Seq<char>>, AssemblyError> {
    match cell {
        None => Ok(None),
        Some(cell) => match *cell.value {
            CellValue::Name(name) => Ok(Some(name@)),
            _ => Err(AssemblyError::Mismatch(cell.component_name)),
        },
    }
}

/// The origin that a cell holds, if there is one.
pub open spec fn saved_origin(cell: Option<DataCell>) -> Result<Option<Seq<char>>, AssemblyError> {
    match cell {
        None => Ok(None),
        Some(cell) => match *cell.value {
            CellValue::SpaceViewOrigin(origin) => Ok(Some(origin@)),
            _ => Err(AssemblyError::Mismatch(cell.component_name)),
        },
    }
}

/// Whether a cell says that a view is visible, if there is one.
pub open spec fn saved_visible(cell: Option<DataCell>) -> Result<Option<bool>, AssemblyError> {
    match cell {
        None => Ok(None),
        Some(cell) => match *cell.value {
            CellValue::Visible(visible) => Ok(Some(visible)),
            _ => Err(AssemblyError::Mismatch(cell.component_name)),
        },
    }
}

impl Archetype for SavedSpaceView {
    open spec fn component_names() -> Seq<Seq<char>> {
        seq![
            "rerun.blueprint.components.SpaceViewClass"@,
            "rerun.blueprint.components.SpaceViewBlueprintIndicator"@,
            "rerun.blueprint.components.SpaceViewOrigin"@,
            "rerun.blueprint.components.Visible"@,
            "rerun.components.Name"@,
        ]
    }

    open spec fn assembled(found: Seq<Option<Entry>>) -> Result<
        SavedSpaceViewView,
        AssemblyError,
    > {
        match found[0] {
            None => Err(AssemblyError::PrimaryNotFound),
            Some(entry) => if entry.cell.num_instances == 0 {
                Err(AssemblyError::MissingData)
            } else {
                match *entry.cell.value {
                    CellValue::SpaceViewClass(class_identifier) => match (
                        saved_name(full_cell(found[4])),
                        saved_origin(full_cell(found[2])),
                        saved_visible(full_cell(found[3])),
                    ) {
                        (Ok(display_name), Ok(space_origin), Ok(visible)) => Ok(
                            SavedSpaceViewView {
                                class_identifier,
                                display_name,
                                space_origin,
                                visible,
                            },
                        ),
                        (Err(error), _, _) => Err(error),
                        (_, Err(error), _) => Err(error),
                        (_, _, Err(error)) => Err(error),
                    },
                    _ => Err(AssemblyError::Mismatch(entry.cell.component_name)),
                }
            },
        }
    }

    fn all_components() -> (r: Vec<ComponentName>) {
        space_view_blueprint_components()
    }

    fn assemble(found: &Vec<Option<(TimeInt, RowId, DataCell)>>) -> (r: Result<
        SavedSpaceView,
        AssemblyError,
    >) {
        assert(found_entries(found@)[0] == entry_of(found@[0]));
        assert(found_entries(found@)[2] == entry_of(found@[2]));
        assert(found_entries(found@)[3] == entry_of(found@[3]));
        assert(found_entries(found@)[4] == entry_of(found@[4]));
        let class_identifier = match &found[0] {
            None => {
                return Err(AssemblyError::PrimaryNotFound);
            },
            Some((_, _, cell)) => {
                if cell.is_empty() {
                    return Err(AssemblyError::MissingData);
                }
                match &*cell.value {
                    CellValue::SpaceViewClass(class_identifier) => *class_identifier,
                    _ => {
                        return Err(AssemblyError::Mismatch(cell.component_name));
                    },
                }
            },
        };
        let display_name = match get_full_cell(&found[4]) {
            None => None,
            Some(cell) => match &*cell.value {
                CellValue::Name(name) => Some(name.clone()),
                _ => {
                    return Err(AssemblyError::Mismatch(cell.component_name));
                },
            },
        };
        let space_origin = match get_full_cell(&found[2]) {
            None => None,
            Some(cell) => match &*cell.value {
                CellValue::SpaceViewOrigin(origin) => Some(origin.clone()),
                _ => {
                    return Err(AssemblyError::Mismatch(cell.component_name));
                },
            },
        };
        let visible = match get_full_cell(&found[3]) {
            None => None,
            Some(cell) => match &*cell.value {
                CellValue::Visible(visible) => Some(*visible),
                _ => {
                    return Err(AssemblyError::Mismatch(cell.component_name));
                },
            },
        };
        Ok(SavedSpaceView { class_identifier, display_name, space_origin, visible })
    }
}

} // verus!

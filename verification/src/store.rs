//! The data store: every table of every entity, and the registry of all rows.
use crate::entries::{entries_in, entry_of, latest_until, Entry};
use crate::names::{
    ComponentName, RowId, StoreId, TimeInt, TimeType, Timeline, TIME_MAX, TIME_MIN, TIME_STATIC,
};
use crate::path::{clone_path, entity_path_hash, path_hash};
use crate::row::{
    clone_cells, clone_times, components_distinct, has_component, timelines_distinct,
    times_temporal, DataCell, DataRow, DataType, DiffView, RowView, StoreDiff, StoreDiffKind,
    StoreEvent, StoreGeneration, TimePoint,
};
use crate::table::{
    empty_table, lemma_table_grown_size, lemma_table_with_valid, table_grown_size, table_with,
    IndexedTable, TableView,
};
use re_log_types::EntityPath;
use vstd::prelude::*;

verus! {

/// What the map of a time point takes up, in bytes, without any times in it.
pub const TIME_POINT_BYTES: u64 = 24;

/// What a timeline and a time on it take up in a time point, in bytes.
pub const TIME_POINT_ENTRY_BYTES: u64 = 40;

/// What the hash of an entity path takes up, in bytes.
pub const PATH_HASH_BYTES: u64 = 8;

/// What a row id takes up in the registry, in bytes.
pub const REGISTRY_ROW_ID_BYTES: u64 = 16;

/// How a store is laid out.
#[derive(Clone, Copy, Debug, PartialEq, Eq, Structural)]
pub struct DataStoreConfig {
    /// How many rows go into a bucket before a new one is opened.
    pub indexed_bucket_num_rows: u64,
    /// Whether to keep the number of the insertion that each row came with.
    pub store_insert_ids: bool,
}

impl Default for DataStoreConfig {
    fn default() -> (r: DataStoreConfig)
        ensures
            r.indexed_bucket_num_rows == 512,
            !r.store_insert_ids,
    {
        DataStoreConfig { indexed_bucket_num_rows: 512, store_insert_ids: false }
    }
}

/// What is known of a row without looking into any table.
#[derive(Debug)]
pub struct RowMetadata {
    pub row_id: RowId,
    pub timepoint: TimePoint,
    pub entity_path_hash: u64,
}

/// All the rows that were added and not removed again, by ascending row id.
#[derive(Debug)]
pub struct MetadataRegistry {
    pub registry: Vec<RowMetadata>,
    pub heap_size_bytes: u64,
}

/// What contracts know of a registered row.
#[verifier::ext_equal]
pub struct RowMeta {
    pub row_id: RowId,
    pub times: Seq<(Timeline, TimeInt)>,
    pub hash: u64,
}

impl View for RowMetadata {
    type V = RowMeta;

    open spec fn view(&self) -> RowMeta {
        RowMeta {
            row_id: self.row_id,
            times: self.timepoint.times@,
            hash: self.entity_path_hash,
        }
    }
}

/// A table, under the hash of the path of its entity.
#[derive(Debug)]
pub struct StoreTable {
    pub entity_path_hash: u64,
    pub table: IndexedTable,
}

/// What contracts know of a table in a store.
#[verifier::ext_equal]
pub struct TableSlot {
    pub hash: u64,
    pub table: TableView,
}

impl View for StoreTable {
    type V = TableSlot;

    open spec fn view(&self) -> TableSlot {
        TableSlot { hash: self.entity_path_hash, table: self.table@ }
    }
}

/// The cell that a component of an entity has at all times.
#[derive(Debug)]
pub struct StaticCell {
    pub row_id: RowId,
    pub cell: DataCell,
}

/// The static cells of one entity.
#[derive(Debug)]
pub struct StaticTable {
    pub entity_path_hash: u64,
    pub cells: Vec<StaticCell>,
}

/// What contracts know of the static cells of one entity.
#[verifier::ext_equal]
pub struct StaticSlot {
    pub hash: u64,
    pub cells: Seq<StaticCell>,
}

impl View for StaticTable {
    type V = StaticSlot;

    open spec fn view(&self) -> StaticSlot {
        StaticSlot { hash: self.entity_path_hash, cells: self.cells@ }
    }
}

/// Why a row was not added.
#[derive(Clone, Copy, Debug, PartialEq, Eq, Structural)]
pub enum WriteError {
    /// A row with this id exists already.
    ReusedRowId(RowId),
    /// The row would take the store's own books beyond what a 64-bit counter can hold.
    Full,
}

/// Everything that was logged, by entity and timeline.
#[derive(Debug)]
pub struct DataStore {
    pub id: StoreId,
    pub config: DataStoreConfig,
    /// The data type that each component was first logged with.
    pub type_registry: Vec<(ComponentName, DataType)>,
    pub metadata_registry: MetadataRegistry,
    /// Ordered by the hash of the entity path.
    pub tables: Vec<StoreTable>,
    pub static_tables: Vec<StaticTable>,
    /// How many rows were ever inserted.
    pub insert_id: u64,
    /// How many times garbage was ever collected.
    pub gc_id: u64,
    /// How many events there ever were.
    pub event_id: u64,
}

/// What contracts know of a store.
#[verifier::ext_equal]
pub struct StoreView {
    pub types: Seq<(ComponentName, DataType)>,
    pub registry: Seq<RowMeta>,
    pub heap_size: int,
    pub tables: Seq<TableSlot>,
    pub statics: Seq<StaticSlot>,
    pub insert_id: u64,
    pub gc_id: u64,
    pub event_id: u64,
}

pub open spec fn metas(registry: Seq<RowMetadata>) -> Seq<RowMeta> {
    Seq::new(registry.len(), |i: int| registry[i]@)
}

pub open spec fn slots(tables: Seq<StoreTable>) -> Seq<TableSlot> {
    Seq::new(tables.len(), |i: int| tables[i]@)
}

pub open spec fn static_slots(tables: Seq<StaticTable>) -> Seq<StaticSlot> {
    Seq::new(tables.len(), |i: int| tables[i]@)
}

impl View for DataStore {
    type V = StoreView;

    open spec fn view(&self) -> StoreView {
        StoreView {
            types: self.type_registry@,
            registry: metas(self.metadata_registry.registry@),
            heap_size: self.metadata_registry.heap_size_bytes as int,
            tables: slots(self.tables@),
            statics: static_slots(self.static_tables@),
            insert_id: self.insert_id,
            gc_id: self.gc_id,
            event_id: self.event_id,
        }
    }
}

// --- Validity.

/// Whether rows are registered by ascending id, each with proper times.
pub open spec fn registry_valid(registry: Seq<RowMeta>) -> bool {
    &&& forall|i: int, j: int|
        #![trigger registry[i], registry[j]]
        0 <= i < j < registry.len() ==> registry[i].row_id.bits < registry[j].row_id.bits
    &&& forall|i: int|
        0 <= i < registry.len() ==> timelines_distinct((#[trigger] registry[i]).times)
            && times_temporal(registry[i].times)
}

/// Whether a table is the one of an entity on a timeline.
pub open spec fn is_table_of(slot: TableSlot, hash: u64, timeline: (Seq<char>, TimeType)) -> bool {
    slot.hash == hash && slot.table.timeline@ == timeline
}

/// Whether tables are ordered by the hash of their entity, with one for each entity and timeline,
/// and each of them valid.
#[verifier::opaque]
pub open spec fn tables_valid(tables: Seq<TableSlot>, store_insert_ids: bool) -> bool {
    &&& forall|i: int, j: int|
        #![trigger tables[i], tables[j]]
        0 <= i < j < tables.len() ==> tables[i].hash <= tables[j].hash && !is_table_of(
            tables[i],
            tables[j].hash,
            tables[j].table.timeline@,
        )
    &&& forall|i: int|
        0 <= i < tables.len() ==> {
            &&& (#[trigger] tables[i]).table.valid()
            &&& entity_path_hash(tables[i].table.entity_path) == tables[i].hash
            &&& tables[i].table.store_insert_ids == store_insert_ids
        }
}

/// Whether each entity has at most one set of static cells, and each component one in it.
pub open spec fn statics_valid(statics: Seq<StaticSlot>) -> bool {
    &&& forall|i: int, j: int|
        #![trigger statics[i], statics[j]]
        0 <= i < j < statics.len() ==> statics[i].hash != statics[j].hash
    &&& forall|i: int|
        0 <= i < statics.len() ==> static_components_distinct((#[trigger] statics[i]).cells)
}

pub open spec fn static_components_distinct(cells: Seq<StaticCell>) -> bool {
    forall|i: int, j: int|
        #![trigger cells[i], cells[j]]
        0 <= i < j < cells.len() ==> cells[i].cell.component_name@ != cells[j].cell.component_name@
}

impl DataStore {
    pub open spec fn wf(self) -> bool {
        &&& self.books_wf()
        &&& forall|i: int| 0 <= i < self.tables@.len() ==> (#[trigger] self.tables@[i]).table.wf()
        &&& tables_valid(self@.tables, self.config.store_insert_ids)
    }

    /// What has to hold apart from the tables.
    pub open spec fn books_wf(self) -> bool {
        &&& registry_valid(self@.registry)
        &&& statics_valid(self@.statics)
    }
}

// --- Where things are.

/// The position of the table of an entity on a timeline.
pub open spec fn slot_index(tables: Seq<TableSlot>, hash: u64, timeline: (Seq<char>, TimeType))
    -> Option<int> {
    if exists|i: int| 0 <= i < tables.len() && is_table_of(#[trigger] tables[i], hash, timeline) {
        Some(
            choose|i: int|
                0 <= i < tables.len() && is_table_of(#[trigger] tables[i], hash, timeline),
        )
    } else {
        None
    }
}

pub proof fn lemma_slot_index(
    tables: Seq<TableSlot>,
    store_insert_ids: bool,
    hash: u64,
    timeline: (Seq<char>, TimeType),
    i: int,
)
    requires
        tables_valid(tables, store_insert_ids),
        0 <= i < tables.len(),
        is_table_of(tables[i], hash, timeline),
    ensures
        slot_index(tables, hash, timeline) == Some(i),
{
    reveal(tables_valid);
    let j = choose|j: int|
        0 <= j < tables.len() && is_table_of(#[trigger] tables[j], hash, timeline);
    assert(is_table_of(tables[i], hash, timeline));
    if i < j {
        assert(!is_table_of(tables[i], tables[j].hash, tables[j].table.timeline@));
    } else if j < i {
        assert(!is_table_of(tables[j], tables[i].hash, tables[i].table.timeline@));
    }
}

/// The table of an entity on a timeline; an empty one if there is none.
pub open spec fn table_or_empty(
    tables: Seq<TableSlot>,
    hash: u64,
    timeline: Timeline,
    entity_path: EntityPath,
    store_insert_ids: bool,
) -> TableView {
    match slot_index(tables, hash, timeline@) {
        Some(i) => tables[i].table,
        None => empty_table(timeline, entity_path, store_insert_ids),
    }
}

/// How many tables belong to entities whose hash is not greater.
pub open spec fn slots_up_to(tables: Seq<TableSlot>, hash: u64) -> int
    decreases tables.len(),
{
    if tables.len() == 0 {
        0
    } else if tables.last().hash <= hash {
        tables.len() as int
    } else {
        slots_up_to(tables.drop_last(), hash)
    }
}

/// The position of the table of an entity on a timeline.
pub fn find_table(tables: &Vec<StoreTable>, hash: u64, timeline: &Timeline) -> (r: Option<usize>)
    ensures
        match r {
            Some(i) => i < tables@.len() && is_table_of(slots(tables@)[i as int], hash, timeline@),
            None => slot_index(slots(tables@), hash, timeline@) is None,
        },
{
    let mut i: usize = 0;
    while i < tables.len()
        invariant
            i <= tables@.len(),
            forall|j: int|
                0 <= j < i ==> !is_table_of(#[trigger] slots(tables@)[j], hash, timeline@),
        decreases tables@.len() - i,
    {
        if tables[i].entity_path_hash == hash && tables[i].table.timeline.is(timeline) {
            return Some(i);
        }
        assert(!is_table_of(slots(tables@)[i as int], hash, timeline@));
        i += 1;
    }
    None
}

/// How many rows have a smaller id.
pub open spec fn metas_below(registry: Seq<RowMeta>, row_id: RowId) -> int
    decreases registry.len(),
{
    if registry.len() == 0 {
        0
    } else if registry.last().row_id.bits < row_id.bits {
        registry.len() as int
    } else {
        metas_below(registry.drop_last(), row_id)
    }
}

/// Whether a row id is registered.
pub open spec fn is_registered(registry: Seq<RowMeta>, row_id: RowId) -> bool {
    exists|i: int| 0 <= i < registry.len() && (#[trigger] registry[i]).row_id == row_id
}

proof fn lemma_metas_below(registry: Seq<RowMeta>, row_id: RowId)
    requires
        registry_valid(registry),
    ensures
        0 <= metas_below(registry, row_id) <= registry.len(),
        forall|i: int|
            0 <= i < metas_below(registry, row_id) ==> (#[trigger] registry[i]).row_id.bits
                < row_id.bits,
        forall|i: int|
            metas_below(registry, row_id) <= i < registry.len() ==> (
            #[trigger] registry[i]).row_id.bits >= row_id.bits,
    decreases registry.len(),
{
    if registry.len() > 0 {
        let init = registry.drop_last();
        assert(registry_valid(init)) by {
            assert forall|i: int, j: int|
                #![trigger init[i], init[j]]
                0 <= i < j < init.len() implies init[i].row_id.bits < init[j].row_id.bits by {
                assert(registry[i].row_id.bits < registry[j].row_id.bits);
            }
            assert forall|i: int| 0 <= i < init.len() implies timelines_distinct(
                (#[trigger] init[i]).times,
            ) && times_temporal(init[i].times) by {
                assert(timelines_distinct(registry[i].times));
            }
        }
        if registry.last().row_id.bits < row_id.bits {
            assert forall|i: int| 0 <= i < registry.len() implies (
            #[trigger] registry[i]).row_id.bits < row_id.bits by {
                if i < registry.len() - 1 {
                    assert(registry[i].row_id.bits < registry[registry.len() - 1].row_id.bits);
                }
            }
        } else {
            lemma_metas_below(init, row_id);
            let n = metas_below(init, row_id);
            assert forall|i: int| 0 <= i < n implies (#[trigger] registry[i]).row_id.bits
                < row_id.bits by {
                assert(init[i].row_id.bits < row_id.bits);
            }
            assert forall|i: int| n <= i < registry.len() implies (
            #[trigger] registry[i]).row_id.bits >= row_id.bits by {
                if i < init.len() {
                    assert(init[i].row_id.bits >= row_id.bits);
                }
            }
        }
    }
}

impl MetadataRegistry {
    /// The position at which a row id is, or would be.
    pub(crate) fn position(&self, row_id: RowId) -> (r: usize)
        requires
            registry_valid(metas(self.registry@)),
        ensures
            r == metas_below(metas(self.registry@), row_id),
            r <= self.registry@.len(),
    {
        let ghost all = metas(self.registry@);
        let mut n: usize = self.registry.len();
        assert(all.take(n as int) =~= all);
        while n > 0 && self.registry[n - 1].row_id.bits >= row_id.bits
            invariant
                n <= self.registry@.len(),
                all == metas(self.registry@),
                metas_below(all, row_id) == metas_below(all.take(n as int), row_id),
            decreases n,
        {
            assert(all.take(n as int).drop_last() =~= all.take(n - 1));
            n -= 1;
        }
        n
    }

    /// Whether a row id is registered.
    pub fn contains(&self, row_id: RowId) -> (r: bool)
        requires
            registry_valid(metas(self.registry@)),
        ensures
            r == is_registered(metas(self.registry@), row_id),
    {
        let ghost all = metas(self.registry@);
        proof {
            lemma_metas_below(all, row_id);
        }
        let n: usize = self.position(row_id);
        let found = n < self.registry.len() && self.registry[n].row_id.bits == row_id.bits;
        proof {
            if found {
                assert(all[n as int].row_id == row_id);
            } else if n < all.len() {
                assert forall|i: int| 0 <= i < all.len() implies (#[trigger] all[i]).row_id
                    != row_id by {
                    if i > n {
                        assert(all[n as int].row_id.bits < all[i].row_id.bits);
                    }
                }
            }
        }
        found
    }
}

/// What a row takes up in the registry, in bytes, if it has `num_times` times.
pub open spec fn meta_size(num_times: int) -> int {
    REGISTRY_ROW_ID_BYTES + TIME_POINT_BYTES + TIME_POINT_ENTRY_BYTES * num_times + PATH_HASH_BYTES
}

// --- Adding a row.

/// The tables with a row added to one of them; a new one if there is none yet.
pub open spec fn tables_with_one(
    tables: Seq<TableSlot>,
    config: DataStoreConfig,
    timeline: Timeline,
    time: i64,
    row: RowView,
    insert_id: u64,
) -> Seq<TableSlot> {
    let hash = entity_path_hash(row.entity_path);
    let old = table_or_empty(tables, hash, timeline, row.entity_path, config.store_insert_ids);
    let new = TableSlot {
        hash,
        table: table_with(
            old,
            config.indexed_bucket_num_rows,
            time,
            row.row_id,
            insert_id,
            row.cells,
        ),
    };
    match slot_index(tables, hash, timeline@) {
        Some(i) => tables.update(i, new),
        None => tables.insert(slots_up_to(tables, hash), new),
    }
}

/// The tables with a row added to one for each of the given times.
pub open spec fn tables_with(
    tables: Seq<TableSlot>,
    config: DataStoreConfig,
    times: Seq<(Timeline, TimeInt)>,
    row: RowView,
    insert_id: u64,
) -> Seq<TableSlot>
    decreases times.len(),
{
    if times.len() == 0 {
        tables
    } else {
        tables_with_one(
            tables_with(tables, config, times.drop_last(), row, insert_id),
            config,
            times.last().0,
            times.last().1.value,
            row,
            insert_id,
        )
    }
}

/// The static cells of an entity with one more; of a component that has one already, the cell of
/// the row with the greater id stays.
pub open spec fn put_static(
    cells: Seq<StaticCell>,
    row_id: RowId,
    cell: DataCell,
) -> Seq<StaticCell>
    decreases cells.len(),
{
    if cells.len() == 0 {
        seq![StaticCell { row_id, cell }]
    } else if cells[0].cell.component_name@ == cell.component_name@ {
        if cells[0].row_id.bits <= row_id.bits {
            seq![StaticCell { row_id, cell }] + cells.skip(1)
        } else {
            cells
        }
    } else {
        seq![cells[0]] + put_static(cells.skip(1), row_id, cell)
    }
}

pub open spec fn put_statics(cells: Seq<StaticCell>, row_id: RowId, more: Seq<DataCell>) -> Seq<
    StaticCell,
>
    decreases more.len(),
{
    if more.len() == 0 {
        cells
    } else {
        put_static(put_statics(cells, row_id, more.drop_last()), row_id, more.last())
    }
}

/// The position of the static cells of an entity.
pub open spec fn static_index(statics: Seq<StaticSlot>, hash: u64) -> Option<int> {
    if exists|i: int| 0 <= i < statics.len() && (#[trigger] statics[i]).hash == hash {
        Some(choose|i: int| 0 <= i < statics.len() && (#[trigger] statics[i]).hash == hash)
    } else {
        None
    }
}

/// All static cells once those of a row were added.
pub open spec fn statics_with(statics: Seq<StaticSlot>, row: RowView) -> Seq<StaticSlot> {
    let hash = entity_path_hash(row.entity_path);
    match static_index(statics, hash) {
        Some(i) => statics.update(
            i,
            StaticSlot { hash, cells: put_statics(statics[i].cells, row.row_id, row.cells) },
        ),
        None => statics.push(
            StaticSlot { hash, cells: put_statics(Seq::empty(), row.row_id, row.cells) },
        ),
    }
}

/// Whether the data type of a component is known.
pub open spec fn has_type(types: Seq<(ComponentName, DataType)>, component: Seq<char>) -> bool {
    exists|i: int| 0 <= i < types.len() && (#[trigger] types[i]).0@ == component
}

/// The known data types once those of cells were added; the first one of each component stays.
pub open spec fn types_with(types: Seq<(ComponentName, DataType)>, cells: Seq<DataCell>) -> Seq<
    (ComponentName, DataType),
>
    decreases cells.len(),
{
    if cells.len() == 0 {
        types
    } else {
        let rest = types_with(types, cells.drop_last());
        let cell = cells.last();
        if has_type(rest, cell.component_name@) {
            rest
        } else {
            rest.push((cell.component_name, cell.datatype))
        }
    }
}

/// Whether a row with the same id exists: it is registered, or a table that the row would go into
/// still holds it.
pub open spec fn in_use(store: StoreView, config: DataStoreConfig, row: RowView) -> bool {
    is_registered(store.registry, row.row_id) || exists|j: int|
        0 <= j < row.times.len() && #[trigger] table_or_empty(
            store.tables,
            entity_path_hash(row.entity_path),
            row.times[j].0,
            row.entity_path,
            config.store_insert_ids,
        ).has_row_id(row.row_id)
}

/// Whether the books of a table can take in a row.
pub open spec fn table_fits(table: TableView, config: DataStoreConfig, time: i64, row: RowView)
    -> bool {
    table.num_rows < u64::MAX && table_grown_size(
        table,
        config.indexed_bucket_num_rows,
        time,
        row.cells,
    ) <= u64::MAX
}

/// Whether the books can take in a row.
pub open spec fn fits(store: StoreView, config: DataStoreConfig, row: RowView) -> bool {
    &&& store.heap_size + meta_size(row.times.len() as int) <= u64::MAX
    &&& forall|j: int|
        0 <= j < row.times.len() ==> table_fits(
            #[trigger] table_or_empty(
                store.tables,
                entity_path_hash(row.entity_path),
                row.times[j].0,
                row.entity_path,
                config.store_insert_ids,
            ),
            config,
            row.times[j].1.value,
            row,
        )
}

/// A store with a row added to it.
pub open spec fn store_with(store: StoreView, config: DataStoreConfig, row: RowView) -> StoreView {
    let times = row.times;
    let meta = RowMeta { row_id: row.row_id, times, hash: entity_path_hash(row.entity_path) };
    StoreView {
        types: types_with(store.types, row.cells),
        registry: store.registry.insert(metas_below(store.registry, row.row_id), meta),
        heap_size: store.heap_size + meta_size(times.len() as int),
        tables: tables_with(store.tables, config, times, row, store.insert_id),
        statics: if times.len() == 0 {
            statics_with(store.statics, row)
        } else {
            store.statics
        },
        insert_id: next_wrapping(store.insert_id),
        event_id: next_wrapping(store.event_id),
        ..store
    }
}

/// The next number, starting over when there is no larger one.
pub open spec fn next_wrapping(n: u64) -> u64 {
    if n == u64::MAX {
        0
    } else {
        (n + 1) as u64
    }
}

/// What adding a row changes.
pub open spec fn addition_of(row: RowView) -> DiffView {
    DiffView {
        kind: StoreDiffKind::Addition,
        row_id: row.row_id,
        times: row.times,
        entity_path: row.entity_path,
        cells: row.cells,
    }
}

pub proof fn lemma_slots_up_to(tables: Seq<TableSlot>, store_insert_ids: bool, hash: u64)
    requires
        tables_valid(tables, store_insert_ids),
    ensures
        0 <= slots_up_to(tables, hash) <= tables.len(),
        forall|i: int| 0 <= i < slots_up_to(tables, hash) ==> (#[trigger] tables[i]).hash <= hash,
        forall|i: int|
            slots_up_to(tables, hash) <= i < tables.len() ==> (#[trigger] tables[i]).hash > hash,
    decreases tables.len(),
{
    reveal(tables_valid);
    if tables.len() > 0 {
        if tables.last().hash <= hash {
            assert forall|i: int| 0 <= i < tables.len() implies (#[trigger] tables[i]).hash
                <= hash by {
                if i < tables.len() - 1 {
                    assert(tables[i].hash <= tables[tables.len() - 1].hash);
                }
            }
        } else {
            let init = tables.drop_last();
            assert(tables_valid(init, store_insert_ids)) by {
                assert forall|a: int, b: int|
                    #![trigger init[a], init[b]]
                    0 <= a < b < init.len() implies init[a].hash <= init[b].hash && !is_table_of(
                    init[a],
                    init[b].hash,
                    init[b].table.timeline@,
                ) by {
                    assert(tables[a].hash <= tables[b].hash);
                }
                assert forall|i: int| 0 <= i < init.len() implies {
                    &&& (#[trigger] init[i]).table.valid()
                    &&& entity_path_hash(init[i].table.entity_path) == init[i].hash
                    &&& init[i].table.store_insert_ids == store_insert_ids
                } by {
                    assert(tables[i].table.valid());
                }
            }
            lemma_slots_up_to(init, store_insert_ids, hash);
            let n = slots_up_to(init, hash);
            assert forall|i: int| 0 <= i < n implies (#[trigger] tables[i]).hash <= hash by {
                assert(init[i].hash <= hash);
            }
            assert forall|i: int| n <= i < tables.len() implies (#[trigger] tables[i]).hash
                > hash by {
                if i < init.len() {
                    assert(init[i].hash > hash);
                }
            }
        }
    }
}

pub proof fn lemma_empty_table_valid(timeline: Timeline, entity_path: EntityPath, flag: bool)
    ensures
        empty_table(timeline, entity_path, flag).valid(),
        forall|row_id: RowId| !empty_table(timeline, entity_path, flag).has_row_id(row_id),
{
    reveal(TableView::valid);
    let table = empty_table(timeline, entity_path, flag);
    assert(table.buckets.drop_last() =~= Seq::<crate::table::TableBucket>::empty());
    reveal_with_fuel(crate::table::buckets_rows, 2);
    assert(table.buckets[0].bucket.rows.len() == 0);
}

/// Adding a row to one of the tables leaves the others as they are, and all of them valid.
pub proof fn lemma_tables_with_one(
    tables: Seq<TableSlot>,
    config: DataStoreConfig,
    timeline: Timeline,
    time: i64,
    row: RowView,
    insert_id: u64,
)
    requires
        tables_valid(tables, config.store_insert_ids),
        time >= TIME_MIN,
        !table_or_empty(
            tables,
            entity_path_hash(row.entity_path),
            timeline,
            row.entity_path,
            config.store_insert_ids,
        ).has_row_id(row.row_id),
    ensures
        tables_valid(
            tables_with_one(tables, config, timeline, time, row, insert_id),
            config.store_insert_ids,
        ),
        forall|hash: u64, other: Timeline, path: EntityPath|
            other@ != timeline@ || hash != entity_path_hash(row.entity_path) ==> #[trigger] table_or_empty(
                tables_with_one(tables, config, timeline, time, row, insert_id),
                hash,
                other,
                path,
                config.store_insert_ids,
            ) == table_or_empty(tables, hash, other, path, config.store_insert_ids),
{
    let flag = config.store_insert_ids;
    let out = tables_with_one(tables, config, timeline, time, row, insert_id);
    let hash = entity_path_hash(row.entity_path);
    let old = table_or_empty(tables, hash, timeline, row.entity_path, flag);
    lemma_slots_up_to(tables, flag, hash);
    lemma_empty_table_valid(timeline, row.entity_path, flag);
    let found = slot_index(tables, hash, timeline@);
    let at = match found {
        Some(i) => i,
        None => slots_up_to(tables, hash),
    };
    // Where a table of the result was before.
    let from = |i: int|
        if found is Some || i < at {
            i
        } else {
            i - 1
        };
    assert(old.valid()) by {
        reveal(tables_valid);
    }
    lemma_table_with_valid(
        old,
        config.indexed_bucket_num_rows,
        time,
        row.row_id,
        insert_id,
        row.cells,
    );
    assert(forall|i: int| 0 <= i < out.len() && i != at ==> #[trigger] out[i] == tables[from(i)]);
    assert(out[at].hash == hash && out[at].table.timeline@ == timeline@);
    assert(tables_valid(out, flag)) by {
        reveal(tables_valid);
        assert forall|a: int, b: int|
            #![trigger out[a], out[b]]
            0 <= a < b < out.len() implies out[a].hash <= out[b].hash && !is_table_of(
            out[a],
            out[b].hash,
            out[b].table.timeline@,
        ) by {
            if a != at && b != at {
                assert(tables[from(a)].hash <= tables[from(b)].hash);
            } else if found is Some {
                assert(tables[a].hash <= tables[b].hash);
                assert(!is_table_of(tables[a], tables[b].hash, tables[b].table.timeline@));
            } else if a == at {
                assert(tables[from(b)].hash > hash);
            } else {
                assert(tables[from(a)].hash <= hash);
                assert(!is_table_of(tables[from(a)], hash, timeline@));
            }
        }
        assert forall|i: int| 0 <= i < out.len() implies {
            &&& (#[trigger] out[i]).table.valid()
            &&& entity_path_hash(out[i].table.entity_path) == out[i].hash
            &&& out[i].table.store_insert_ids == flag
        } by {
            if i != at {
                assert(tables[from(i)].table.valid());
            } else if found is Some {
                assert(tables[at].table.valid());
            }
        }
    }
    assert forall|h: u64, other: Timeline, path: EntityPath|
        other@ != timeline@ || h != hash implies #[trigger] table_or_empty(
        out,
        h,
        other,
        path,
        flag,
    ) == table_or_empty(tables, h, other, path, flag) by {
        match slot_index(tables, h, other@) {
            Some(i) => {
                let j = if found is Some || i < at {
                    i
                } else {
                    i + 1
                };
                assert(from(j) == i && j != at);
                assert(out[j] == tables[i]);
                lemma_slot_index(out, flag, h, other@, j);
            },
            None => {
                assert forall|i: int| 0 <= i < out.len() implies !is_table_of(
                    #[trigger] out[i],
                    h,
                    other@,
                ) by {
                    if i != at {
                        assert(!is_table_of(tables[from(i)], h, other@));
                    }
                }
            },
        }
    }
}

/// Adding a row for some times leaves the tables of other times as they are.
pub proof fn lemma_tables_with(
    tables: Seq<TableSlot>,
    config: DataStoreConfig,
    times: Seq<(Timeline, TimeInt)>,
    row: RowView,
    insert_id: u64,
)
    requires
        tables_valid(tables, config.store_insert_ids),
        timelines_distinct(times),
        times_temporal(times),
        forall|j: int|
            0 <= j < times.len() ==> !(#[trigger] table_or_empty(
                tables,
                entity_path_hash(row.entity_path),
                times[j].0,
                row.entity_path,
                config.store_insert_ids,
            )).has_row_id(row.row_id),
    ensures
        tables_valid(
            tables_with(tables, config, times, row, insert_id),
            config.store_insert_ids,
        ),
        forall|hash: u64, other: Timeline, path: EntityPath|
            (forall|j: int| 0 <= j < times.len() ==> (#[trigger] times[j]).0@ != other@) || hash
                != entity_path_hash(row.entity_path) ==> #[trigger] table_or_empty(
                tables_with(tables, config, times, row, insert_id),
                hash,
                other,
                path,
                config.store_insert_ids,
            ) == table_or_empty(tables, hash, other, path, config.store_insert_ids),
    decreases times.len(),
{
    if times.len() > 0 {
        let init = times.drop_last();
        let n = times.len() - 1;
        assert(timelines_distinct(init)) by {
            assert forall|i: int, j: int|
                #![trigger init[i], init[j]]
                0 <= i < j < init.len() implies init[i].0@ != init[j].0@ by {
                assert(times[i].0@ != times[j].0@);
            }
        }
        assert(times_temporal(init)) by {
            assert forall|i: int| 0 <= i < init.len() implies (#[trigger] init[i]).1.value
                >= TIME_MIN by {
                assert(times[i].1.value >= TIME_MIN);
            }
        }
        let hash = entity_path_hash(row.entity_path);
        let flag = config.store_insert_ids;
        assert forall|j: int| 0 <= j < init.len() implies !(#[trigger] table_or_empty(
            tables,
            hash,
            init[j].0,
            row.entity_path,
            flag,
        )).has_row_id(row.row_id) by {
            assert(init[j] == times[j]);
            assert(!table_or_empty(tables, hash, times[j].0, row.entity_path, flag).has_row_id(
                row.row_id,
            ));
        }
        lemma_tables_with(tables, config, init, row, insert_id);
        let rest = tables_with(tables, config, init, row, insert_id);
        let last = times[n].0;
        assert(times[n].1.value >= TIME_MIN);
        assert forall|j: int| 0 <= j < init.len() implies (#[trigger] init[j]).0@ != last@ by {
            assert(times[j].0@ != times[n].0@);
        }
        assert(table_or_empty(rest, hash, last, row.entity_path, flag) == table_or_empty(
            tables,
            hash,
            last,
            row.entity_path,
            flag,
        ));
        assert(!table_or_empty(tables, hash, times[n].0, row.entity_path, flag).has_row_id(
            row.row_id,
        ));
        lemma_tables_with_one(rest, config, last, times[n].1.value, row, insert_id);
        let out = tables_with(tables, config, times, row, insert_id);
        assert forall|h: u64, other: Timeline, path: EntityPath|
            (forall|j: int| 0 <= j < times.len() ==> (#[trigger] times[j]).0@ != other@) || h
                != hash implies #[trigger] table_or_empty(out, h, other, path, flag)
            == table_or_empty(tables, h, other, path, flag) by {
            if h == hash {
                assert(times[n].0@ != other@);
                assert forall|j: int| 0 <= j < init.len() implies (#[trigger] init[j]).0@
                    != other@ by {
                    assert(times[j].0@ != other@);
                }
            }
            assert(table_or_empty(rest, h, other, path, flag) == table_or_empty(
                tables,
                h,
                other,
                path,
                flag,
            ));
        }
    }
}

impl DataStore {
    /// A store that holds nothing yet.
    pub fn new(id: StoreId, config: DataStoreConfig) -> (r: DataStore)
        ensures
            r.wf(),
            r.id == id,
            r.config == config,
            r@ == empty_store(),
    {
        let r = DataStore {
            id,
            config,
            type_registry: Vec::new(),
            metadata_registry: MetadataRegistry { registry: Vec::new(), heap_size_bytes: 0 },
            tables: Vec::new(),
            static_tables: Vec::new(),
            insert_id: 0,
            gc_id: 0,
            event_id: 0,
        };
        proof {
            reveal(tables_valid);
            assert(r@ =~= empty_store());
        }
        r
    }

    pub fn id(&self) -> (r: &StoreId)
        ensures
            *r == self.id,
    {
        &self.id
    }

    /// Whether a row with the same id exists.
    pub fn is_in_use(&self, row: &DataRow) -> (r: bool)
        requires
            self.wf(),
            row.wf(),
        ensures
            r == in_use(self@, self.config, row@),
    {
        if self.metadata_registry.contains(row.row_id) {
            return true;
        }
        let hash: u64 = path_hash(&row.entity_path);
        let mut j: usize = 0;
        while j < row.timepoint.times.len()
            invariant
                j <= row.timepoint.times@.len(),
                self.wf(),
                hash == entity_path_hash(row.entity_path),
                !is_registered(self@.registry, row.row_id),
                forall|k: int|
                    0 <= k < j ==> !(#[trigger] table_or_empty(
                        self@.tables,
                        hash,
                        row.timepoint.times@[k].0,
                        row.entity_path,
                        self.config.store_insert_ids,
                    )).has_row_id(row.row_id),
            decreases row.timepoint.times@.len() - j,
        {
            let timeline = row.timepoint.times[j].0;
            proof {
                lemma_empty_table_valid(timeline, row.entity_path, self.config.store_insert_ids);
            }
            if let Some(i) = find_table(&self.tables, hash, &timeline) {
                proof {
                    lemma_slot_index(
                        self@.tables,
                        self.config.store_insert_ids,
                        hash,
                        timeline@,
                        i as int,
                    );
                    assert(self.tables@[i as int].table.wf());
                }
                if self.tables[i].table.holds_row_id(row.row_id) {
                    assert(table_or_empty(
                        self@.tables,
                        hash,
                        row.timepoint.times@[j as int].0,
                        row.entity_path,
                        self.config.store_insert_ids,
                    ).has_row_id(row.row_id));
                    return true;
                }
            }
            j += 1;
        }
        false
    }

    /// Whether the store's books can take in a row.
    pub fn can_insert(&self, row: &DataRow) -> (r: bool)
        requires
            self.wf(),
            row.wf(),
        ensures
            r == fits(self@, self.config, row@),
    {
        let num_times: usize = row.timepoint.times.len();
        let heap_size: u128 = self.metadata_registry.heap_size_bytes as u128 + 48 + 40
            * num_times as u128;
        if heap_size > 0xffff_ffff_ffff_ffff {
            return false;
        }
        let hash: u64 = path_hash(&row.entity_path);
        let mut j: usize = 0;
        while j < num_times
            invariant
                num_times == row.timepoint.times@.len(),
                j <= num_times,
                self.wf(),
                row.wf(),
                hash == entity_path_hash(row.entity_path),
                self@.heap_size + meta_size(num_times as int) <= u64::MAX,
                forall|k: int|
                    0 <= k < j ==> table_fits(
                        #[trigger] table_or_empty(
                            self@.tables,
                            hash,
                            row.timepoint.times@[k].0,
                            row.entity_path,
                            self.config.store_insert_ids,
                        ),
                        self.config,
                        row.timepoint.times@[k].1.value,
                        row@,
                    ),
            decreases num_times - j,
        {
            let (timeline, time) = row.timepoint.times[j];
            assert(row.timepoint.times@[j as int].1.value >= TIME_MIN);
            let one_fits = match find_table(&self.tables, hash, &timeline) {
                Some(i) => {
                    proof {
                        lemma_slot_index(
                            self@.tables,
                            self.config.store_insert_ids,
                            hash,
                            timeline@,
                            i as int,
                        );
                        assert(self.tables@[i as int].table.wf());
                    }
                    self.tables[i].table.can_insert(
                        self.config.indexed_bucket_num_rows,
                        time,
                        &row.cells,
                    )
                },
                None => {
                    let table = IndexedTable::new(
                        timeline,
                        clone_path(&row.entity_path),
                        self.config.store_insert_ids,
                    );
                    table.can_insert(self.config.indexed_bucket_num_rows, time, &row.cells)
                },
            };
            assert(one_fits == table_fits(
                table_or_empty(
                    self@.tables,
                    hash,
                    row.timepoint.times@[j as int].0,
                    row.entity_path,
                    self.config.store_insert_ids,
                ),
                self.config,
                row.timepoint.times@[j as int].1.value,
                row@,
            ));
            if !one_fits {
                return false;
            }
            j += 1;
        }
        true
    }
}

/// The store that holds nothing.
pub open spec fn empty_store() -> StoreView {
    StoreView {
        types: Seq::empty(),
        registry: Seq::empty(),
        heap_size: 0,
        tables: Seq::empty(),
        statics: Seq::empty(),
        insert_id: 0,
        gc_id: 0,
        event_id: 0,
    }
}

/// Adds a row to one of the tables, or to a new one.
fn insert_into_tables(
    tables: &mut Vec<StoreTable>,
    config: DataStoreConfig,
    timeline: Timeline,
    time: TimeInt,
    row: &DataRow,
    insert_id: u64,
)
    requires
        forall|i: int| 0 <= i < old(tables)@.len() ==> (#[trigger] old(tables)@[i]).table.wf(),
        tables_valid(slots(old(tables)@), config.store_insert_ids),
        time.value >= TIME_MIN,
        components_distinct(row.cells@),
        ({
            let table = table_or_empty(
                slots(old(tables)@),
                entity_path_hash(row.entity_path),
                timeline,
                row.entity_path,
                config.store_insert_ids,
            );
            !table.has_row_id(row.row_id) && table_fits(table, config, time.value, row@)
        }),
    ensures
        forall|i: int| 0 <= i < final(tables)@.len() ==> (#[trigger] final(tables)@[i]).table.wf(),
        tables_valid(slots(final(tables)@), config.store_insert_ids),
        slots(final(tables)@) == tables_with_one(
            slots(old(tables)@),
            config,
            timeline,
            time.value,
            row@,
            insert_id,
        ),
{
    let ghost all = slots(tables@);
    let ghost flag = config.store_insert_ids;
    let hash: u64 = path_hash(&row.entity_path);
    let ghost old_table = table_or_empty(all, hash, timeline, row.entity_path, flag);
    proof {
        lemma_tables_with_one(all, config, timeline, time.value, row@, insert_id);
    }
    match find_table(tables, hash, &timeline) {
        Some(i) => {
            proof {
                lemma_slot_index(all, flag, hash, timeline@, i as int);
                assert(tables@[i as int].table.wf());
                assert(old_table == tables@[i as int].table@);
                lemma_table_grown_size(
                    old_table,
                    config.indexed_bucket_num_rows,
                    time.value,
                    row.row_id,
                    insert_id,
                    row.cells@,
                );
            }
            tables[i].table.insert_row(
                config.indexed_bucket_num_rows,
                time,
                row.row_id,
                insert_id,
                &row.cells,
            );
            assert(slots(tables@) =~= tables_with_one(
                all,
                config,
                timeline,
                time.value,
                row@,
                insert_id,
            ));
        },
        None => {
            let mut table = IndexedTable::new(
                timeline,
                clone_path(&row.entity_path),
                config.store_insert_ids,
            );
            proof {
                lemma_table_grown_size(
                    old_table,
                    config.indexed_bucket_num_rows,
                    time.value,
                    row.row_id,
                    insert_id,
                    row.cells@,
                );
            }
            table.insert_row(
                config.indexed_bucket_num_rows,
                time,
                row.row_id,
                insert_id,
                &row.cells,
            );
            let mut at: usize = tables.len();
            assert(all.take(at as int) =~= all);
            while at > 0 && tables[at - 1].entity_path_hash > hash
                invariant
                    at <= tables@.len(),
                    all == slots(tables@),
                    slots_up_to(all, hash) == slots_up_to(all.take(at as int), hash),
                decreases at,
            {
                assert(all.take(at as int).drop_last() =~= all.take(at - 1));
                at -= 1;
            }
            tables.insert(at, StoreTable { entity_path_hash: hash, table });
            assert(slots(tables@) =~= tables_with_one(
                all,
                config,
                timeline,
                time.value,
                row@,
                insert_id,
            ));
        },
    }
}

pub proof fn lemma_put_static(cells: Seq<StaticCell>, row_id: RowId, cell: DataCell, i: int)
    requires
        0 <= i <= cells.len(),
        forall|j: int|
            0 <= j < i ==> (#[trigger] cells[j]).cell.component_name@ != cell.component_name@,
        i < cells.len() ==> cells[i].cell.component_name@ == cell.component_name@,
    ensures
        put_static(cells, row_id, cell) == if i == cells.len() {
            cells.push(StaticCell { row_id, cell })
        } else if cells[i].row_id.bits <= row_id.bits {
            cells.update(i, StaticCell { row_id, cell })
        } else {
            cells
        },
    decreases cells.len(),
{
    if cells.len() == 0 {
        assert(cells.push(StaticCell { row_id, cell }) =~= seq![StaticCell { row_id, cell }]);
    } else if i == 0 {
        assert(seq![StaticCell { row_id, cell }] + cells.skip(1) =~= cells.update(
            0,
            StaticCell { row_id, cell },
        ));
    } else {
        assert(cells[0].cell.component_name@ != cell.component_name@);
        let rest = cells.skip(1);
        assert forall|j: int| 0 <= j < i - 1 implies (#[trigger] rest[j]).cell.component_name@
            != cell.component_name@ by {
            assert(cells[j + 1].cell.component_name@ != cell.component_name@);
        }
        lemma_put_static(rest, row_id, cell, i - 1);
        assert(put_static(cells, row_id, cell) =~= if i == cells.len() {
            cells.push(StaticCell { row_id, cell })
        } else if cells[i].row_id.bits <= row_id.bits {
            cells.update(i, StaticCell { row_id, cell })
        } else {
            cells
        });
    }
}

/// Adds static cells to those of an entity.
fn put_static_cells(cells: &mut Vec<StaticCell>, row_id: RowId, more: &Vec<DataCell>)
    requires
        static_components_distinct(old(cells)@),
    ensures
        static_components_distinct(final(cells)@),
        final(cells)@ == put_statics(old(cells)@, row_id, more@),
{
    let mut m: usize = 0;
    while m < more.len()
        invariant
            m <= more@.len(),
            static_components_distinct(cells@),
            cells@ == put_statics(old(cells)@, row_id, more@.take(m as int)),
        decreases more@.len() - m,
    {
        proof {
            assert(more@.take(m + 1).drop_last() =~= more@.take(m as int));
        }
        let ghost before = cells@;
        let mut i: usize = 0;
        while i < cells.len() && !cells[i].cell.component_name.is(&more[m].component_name)
            invariant
                i <= cells@.len(),
                m < more@.len(),
                forall|j: int|
                    0 <= j < i ==> (#[trigger] cells@[j]).cell.component_name@
                        != more@[m as int].component_name@,
            decreases cells@.len() - i,
        {
            i += 1;
        }
        proof {
            lemma_put_static(cells@, row_id, more@[m as int], i as int);
        }
        if i == cells.len() {
            cells.push(StaticCell { row_id, cell: more[m].clone() });
            proof {
                assert forall|a: int, b: int|
                    #![trigger cells@[a], cells@[b]]
                    0 <= a < b < cells@.len() implies cells@[a].cell.component_name@
                    != cells@[b].cell.component_name@ by {
                    assert(before[a].cell.component_name@ != more@[m as int].component_name@);
                }
            }
        } else if cells[i].row_id.bits <= row_id.bits {
            cells.set(i, StaticCell { row_id, cell: more[m].clone() });
            proof {
                assert forall|a: int, b: int|
                    #![trigger cells@[a], cells@[b]]
                    0 <= a < b < cells@.len() implies cells@[a].cell.component_name@
                    != cells@[b].cell.component_name@ by {
                    assert(before[a].cell.component_name@ != before[b].cell.component_name@);
                }
            }
        }
        m += 1;
    }
    assert(more@.take(m as int) =~= more@);
}

/// The position of the static cells of an entity.
pub fn find_static(tables: &Vec<StaticTable>, hash: u64) -> (r: Option<usize>)
    requires
        statics_valid(static_slots(tables@)),
    ensures
        match r {
            Some(i) => i < tables@.len() && static_index(static_slots(tables@), hash) == Some(
                i as int,
            ),
            None => static_index(static_slots(tables@), hash) is None,
        },
{
    let ghost all = static_slots(tables@);
    let mut i: usize = 0;
    while i < tables.len()
        invariant
            i <= tables@.len(),
            all == static_slots(tables@),
            statics_valid(all),
            forall|j: int| 0 <= j < i ==> (#[trigger] all[j]).hash != hash,
        decreases tables@.len() - i,
    {
        if tables[i].entity_path_hash == hash {
            proof {
                assert(all[i as int].hash == hash);
                let k = choose|k: int| 0 <= k < all.len() && (#[trigger] all[k]).hash == hash;
                if k < i {
                    assert(all[k].hash != hash);
                } else if i < k {
                    assert(all[i as int].hash != all[k].hash);
                }
            }
            return Some(i);
        }
        assert(all[i as int].hash != hash);
        i += 1;
    }
    None
}

/// Adds the static cells of a row.
fn insert_into_statics(tables: &mut Vec<StaticTable>, row: &DataRow)
    requires
        statics_valid(static_slots(old(tables)@)),
    ensures
        statics_valid(static_slots(final(tables)@)),
        static_slots(final(tables)@) == statics_with(static_slots(old(tables)@), row@),
{
    let ghost all = static_slots(tables@);
    let hash: u64 = path_hash(&row.entity_path);
    match find_static(tables, hash) {
        Some(i) => {
            assert(static_components_distinct(all[i as int].cells));
            assert(all[i as int].hash == hash);
            put_static_cells(&mut tables[i].cells, row.row_id, &row.cells);
            proof {
                let out = static_slots(tables@);
                assert(out =~= statics_with(all, row@));
                assert forall|a: int, b: int|
                    #![trigger out[a], out[b]]
                    0 <= a < b < out.len() implies out[a].hash != out[b].hash by {
                    assert(all[a].hash != all[b].hash);
                }
                assert forall|a: int| 0 <= a < out.len() implies static_components_distinct(
                    (#[trigger] out[a]).cells,
                ) by {
                    assert(static_components_distinct(all[a].cells));
                }
            }
        },
        None => {
            let mut cells: Vec<StaticCell> = Vec::new();
            put_static_cells(&mut cells, row.row_id, &row.cells);
            tables.push(StaticTable { entity_path_hash: hash, cells });
            proof {
                let out = static_slots(tables@);
                assert(out =~= statics_with(all, row@));
                assert forall|a: int, b: int|
                    #![trigger out[a], out[b]]
                    0 <= a < b < out.len() implies out[a].hash != out[b].hash by {
                    if b < all.len() {
                        assert(all[a].hash != all[b].hash);
                    } else {
                        assert(all[a].hash != hash);
                    }
                }
                assert forall|a: int| 0 <= a < out.len() implies static_components_distinct(
                    (#[trigger] out[a]).cells,
                ) by {
                    if a < all.len() {
                        assert(static_components_distinct(all[a].cells));
                    }
                }
            }
        },
    }
}

/// The position of a component among the known data types.
fn find_type(types: &Vec<(ComponentName, DataType)>, component: &ComponentName) -> (r: Option<usize>)
    ensures
        match r {
            Some(i) => i < types@.len() && types@[i as int].0@ == component@ && forall|j: int|
                0 <= j < i ==> (#[trigger] types@[j]).0@ != component@,
            None => !has_type(types@, component@),
        },
{
    let mut i: usize = 0;
    while i < types.len()
        invariant
            i <= types@.len(),
            forall|j: int| 0 <= j < i ==> (#[trigger] types@[j]).0@ != component@,
        decreases types@.len() - i,
    {
        if types[i].0.is(component) {
            return Some(i);
        }
        i += 1;
    }
    None
}

/// Adds the data types of cells to those that are known.
fn register_types(types: &mut Vec<(ComponentName, DataType)>, cells: &Vec<DataCell>)
    ensures
        final(types)@ == types_with(old(types)@, cells@),
{
    let mut i: usize = 0;
    while i < cells.len()
        invariant
            i <= cells@.len(),
            types@ == types_with(old(types)@, cells@.take(i as int)),
        decreases cells@.len() - i,
    {
        assert(cells@.take(i + 1).drop_last() =~= cells@.take(i as int));
        match find_type(types, &cells[i].component_name) {
            Some(k) => {
                assert(types@[k as int].0@ == cells@[i as int].component_name@);
            },
            None => {
                types.push((cells[i].component_name, cells[i].datatype));
            },
        }
        i += 1;
    }
    assert(cells@.take(i as int) =~= cells@);
}

proof fn lemma_registry_insert_valid(registry: Seq<RowMeta>, meta: RowMeta)
    requires
        registry_valid(registry),
        !is_registered(registry, meta.row_id),
        timelines_distinct(meta.times),
        times_temporal(meta.times),
    ensures
        registry_valid(registry.insert(metas_below(registry, meta.row_id), meta)),
{
    let at = metas_below(registry, meta.row_id);
    lemma_metas_below(registry, meta.row_id);
    let out = registry.insert(at, meta);
    assert forall|i: int, j: int|
        #![trigger out[i], out[j]]
        0 <= i < j < out.len() implies out[i].row_id.bits < out[j].row_id.bits by {
        if i != at && j != at {
            let a = if i < at {
                i
            } else {
                i - 1
            };
            let b = if j < at {
                j
            } else {
                j - 1
            };
            assert(registry[a].row_id.bits < registry[b].row_id.bits);
        } else if i == at {
            assert(registry[j - 1].row_id.bits >= meta.row_id.bits);
            assert(registry[j - 1].row_id != meta.row_id);
        } else {
            assert(registry[i].row_id.bits < meta.row_id.bits);
        }
    }
    assert forall|i: int| 0 <= i < out.len() implies timelines_distinct((#[trigger] out[i]).times)
        && times_temporal(out[i].times) by {
        if i != at {
            let a = if i < at {
                i
            } else {
                i - 1
            };
            assert(timelines_distinct(registry[a].times));
        }
    }
}

impl DataStore {
    /// Adds a row.
    ///
    /// A row without times is static: its cells hold at all times, and hide whatever was logged for
    /// the same components at any time.
    ///
    /// Fails, and changes nothing, if a row with the same id exists or if the store's books cannot
    /// take in any more.
    pub fn insert_row(&mut self, row: &DataRow) -> (r: Result<StoreEvent, WriteError>)
        requires
            old(self).wf(),
            row.wf(),
        ensures
            final(self).wf(),
            final(self).id == old(self).id,
            final(self).config == old(self).config,
            ({
                let reused = in_use(old(self)@, old(self).config, row@);
                let room = fits(old(self)@, old(self).config, row@);
                match r {
                    Ok(event) => {
                        &&& !reused && room
                        &&& final(self)@ == store_with(old(self)@, old(self).config, row@)
                        &&& event.store_id == old(self).id
                        &&& event.store_generation == (StoreGeneration {
                            insert_id: next_wrapping(old(self).insert_id),
                            gc_id: old(self).gc_id,
                        })
                        &&& event.event_id == old(self).event_id
                        &&& event.diff@ == addition_of(row@)
                    },
                    Err(WriteError::ReusedRowId(row_id)) => reused && row_id == row.row_id && *final(
                        self) == *old(self),
                    Err(WriteError::Full) => !reused && !room && *final(self) == *old(self),
                }
            }),
    {
        if self.is_in_use(row) {
            return Err(WriteError::ReusedRowId(row.row_id));
        }
        if !self.can_insert(row) {
            return Err(WriteError::Full);
        }
        let ghost store = self@;
        let ghost flag = self.config.store_insert_ids;
        let ghost times = row.timepoint.times@;
        let config = self.config;
        let insert_id: u64 = self.insert_id;
        let hash: u64 = path_hash(&row.entity_path);
        let num_times: usize = row.timepoint.times.len();
        let mut j: usize = 0;
        proof {
            lemma_tables_with(store.tables, config, times.take(0), row@, insert_id);
        }
        while j < num_times
            invariant
                j <= num_times,
                num_times == times.len(),
                times == row.timepoint.times@,
                row.wf(),
                config == old(self).config,
                flag == config.store_insert_ids,
                store == old(self)@,
                insert_id == old(self).insert_id,
                hash == entity_path_hash(row.entity_path),
                tables_valid(store.tables, flag),
                !in_use(store, config, row@),
                fits(store, config, row@),
                forall|i: int|
                    0 <= i < self.tables@.len() ==> (#[trigger] self.tables@[i]).table.wf(),
                tables_valid(slots(self.tables@), flag),
                slots(self.tables@) == tables_with(
                    store.tables,
                    config,
                    times.take(j as int),
                    row@,
                    insert_id,
                ),
                self.id == old(self).id,
                self.config == old(self).config,
                self.type_registry == old(self).type_registry,
                self.metadata_registry == old(self).metadata_registry,
                self.static_tables == old(self).static_tables,
                self.insert_id == old(self).insert_id,
                self.gc_id == old(self).gc_id,
                self.event_id == old(self).event_id,
            decreases num_times - j,
        {
            let (timeline, time) = row.timepoint.times[j];
            proof {
                let prefix = times.take(j as int);
                assert(times.take(j + 1).drop_last() =~= prefix);
                assert(times[j as int].1.value >= TIME_MIN);
                assert forall|a: int, b: int|
                    #![trigger prefix[a], prefix[b]]
                    0 <= a < b < prefix.len() implies prefix[a].0@ != prefix[b].0@ by {
                    assert(times[a].0@ != times[b].0@);
                }
                assert forall|k: int| 0 <= k < prefix.len() implies (#[trigger] prefix[k]).1.value
                    >= TIME_MIN by {
                    assert(times[k].1.value >= TIME_MIN);
                }
                assert forall|k: int| 0 <= k < prefix.len() implies !(#[trigger] table_or_empty(
                    store.tables,
                    hash,
                    prefix[k].0,
                    row.entity_path,
                    flag,
                )).has_row_id(row.row_id) by {
                    assert(prefix[k] == times[k]);
                    assert(!table_or_empty(
                        store.tables,
                        hash,
                        times[k].0,
                        row.entity_path,
                        flag,
                    ).has_row_id(row.row_id));
                }
                lemma_tables_with(store.tables, config, prefix, row@, insert_id);
                assert forall|k: int| 0 <= k < prefix.len() implies (#[trigger] prefix[k]).0@
                    != timeline@ by {
                    assert(times[k].0@ != times[j as int].0@);
                }
                let here = table_or_empty(
                    slots(self.tables@),
                    hash,
                    timeline,
                    row.entity_path,
                    flag,
                );
                assert(here == table_or_empty(
                    store.tables,
                    hash,
                    times[j as int].0,
                    row.entity_path,
                    flag,
                ));
                assert(!here.has_row_id(row.row_id));
                assert(table_fits(here, config, times[j as int].1.value, row@));
            }
            insert_into_tables(&mut self.tables, config, timeline, time, row, insert_id);
            j += 1;
        }
        proof {
            assert(times.take(j as int) =~= times);
            lemma_registry_insert_valid(
                store.registry,
                RowMeta { row_id: row.row_id, times, hash },
            );
        }
        if num_times == 0 {
            insert_into_statics(&mut self.static_tables, row);
        }
        register_types(&mut self.type_registry, &row.cells);
        let at: usize = self.metadata_registry.position(row.row_id);
        self.metadata_registry.registry.insert(
            at,
            RowMetadata {
                row_id: row.row_id,
                timepoint: row.timepoint.clone(),
                entity_path_hash: hash,
            },
        );
        proof {
            assert(metas(self.metadata_registry.registry@) =~= store.registry.insert(
                at as int,
                RowMeta { row_id: row.row_id, times, hash },
            ));
        }
        self.metadata_registry.heap_size_bytes = self.metadata_registry.heap_size_bytes + (48 + 40
            * num_times as u64);
        self.insert_id = self.insert_id.wrapping_add(1);
        let event = StoreEvent {
            store_id: self.id.clone(),
            store_generation: StoreGeneration { insert_id: self.insert_id, gc_id: self.gc_id },
            event_id: self.event_id,
            diff: StoreDiff {
                kind: StoreDiffKind::Addition,
                row_id: row.row_id,
                times: clone_times(&row.timepoint.times),
                entity_path: clone_path(&row.entity_path),
                cells: clone_cells(&row.cells),
            },
        };
        self.event_id = self.event_id.wrapping_add(1);
        assert(self@ =~= store_with(store, config, row@));
        Ok(event)
    }
}

// --- Reading.

/// What to read: the latest data on a timeline that is not later than a given time.
#[derive(Clone, Copy, Debug, PartialEq, Eq)]
pub struct LatestAtQuery {
    pub timeline: Timeline,
    pub at: TimeInt,
}

impl LatestAtQuery {
    pub fn new(timeline: Timeline, at: TimeInt) -> (r: LatestAtQuery)
        ensures
            r.timeline == timeline,
            r.at == at,
    {
        LatestAtQuery { timeline, at }
    }

    /// The latest data there is on a timeline.
    pub fn latest(timeline: Timeline) -> (r: LatestAtQuery)
        ensures
            r.timeline == timeline,
            r.at.value == TIME_MAX,
    {
        LatestAtQuery { timeline, at: TimeInt { value: TIME_MAX } }
    }
}

/// The static cell of a component, if there is one.
pub open spec fn static_cell_of(cells: Seq<StaticCell>, component: Seq<char>) -> Option<StaticCell>
    decreases cells.len(),
{
    if cells.len() == 0 {
        None
    } else if cells[0].cell.component_name@ == component {
        Some(cells[0])
    } else {
        static_cell_of(cells.skip(1), component)
    }
}

/// The static cell of a component of an entity, if there is one.
pub open spec fn static_entry(statics: Seq<StaticSlot>, hash: u64, component: Seq<char>) -> Option<
    StaticCell,
> {
    match static_index(statics, hash) {
        Some(i) => static_cell_of(statics[i].cells, component),
        None => None,
    }
}

/// What a query finds of a component of an entity: its static cell if it has one, else the latest
/// one on the timeline.
pub open spec fn latest_entry(
    store: StoreView,
    query: LatestAtQuery,
    hash: u64,
    component: Seq<char>,
) -> Option<Entry> {
    match static_entry(store.statics, hash, component) {
        Some(found) => Some(
            Entry { time: TIME_STATIC, row_id: found.row_id, cell: found.cell },
        ),
        None => match slot_index(store.tables, hash, query.timeline@) {
            Some(i) => latest_until(
                entries_in(store.tables[i].table.buckets, component),
                query.at.value,
            ),
            None => None,
        },
    }
}

/// The data type of a component, if it is known.
pub open spec fn type_of(types: Seq<(ComponentName, DataType)>, component: Seq<char>) -> Option<
    DataType,
>
    decreases types.len(),
{
    if types.len() == 0 {
        None
    } else if types[0].0@ == component {
        Some(types[0].1)
    } else {
        type_of(types.skip(1), component)
    }
}

proof fn lemma_type_of(types: Seq<(ComponentName, DataType)>, component: Seq<char>, i: int)
    requires
        0 <= i <= types.len(),
        forall|j: int| 0 <= j < i ==> (#[trigger] types[j]).0@ != component,
        i < types.len() ==> types[i].0@ == component,
    ensures
        type_of(types, component) == if i < types.len() {
            Some(types[i].1)
        } else {
            None
        },
    decreases types.len(),
{
    if types.len() > 0 && i > 0 {
        assert(types[0].0@ != component);
        let rest = types.skip(1);
        assert forall|j: int| 0 <= j < i - 1 implies (#[trigger] rest[j]).0@ != component by {
            assert(types[j + 1].0@ != component);
        }
        lemma_type_of(rest, component, i - 1);
    }
}

proof fn lemma_static_cell_of(cells: Seq<StaticCell>, component: Seq<char>, i: int)
    requires
        0 <= i <= cells.len(),
        forall|j: int| 0 <= j < i ==> (#[trigger] cells[j]).cell.component_name@ != component,
        i < cells.len() ==> cells[i].cell.component_name@ == component,
    ensures
        static_cell_of(cells, component) == if i < cells.len() {
            Some(cells[i])
        } else {
            None
        },
    decreases cells.len(),
{
    if cells.len() > 0 && i > 0 {
        assert(cells[0].cell.component_name@ != component);
        let rest = cells.skip(1);
        assert forall|j: int| 0 <= j < i - 1 implies (#[trigger] rest[j]).cell.component_name@
            != component by {
            assert(cells[j + 1].cell.component_name@ != component);
        }
        lemma_static_cell_of(rest, component, i - 1);
    }
}

impl StaticTable {
    /// The static cell of a component, if there is one.
    pub fn find(&self, component: &ComponentName) -> (r: Option<(RowId, DataCell)>)
        ensures
            match static_cell_of(self.cells@, component@) {
                Some(found) => r == Some((found.row_id, found.cell)),
                None => r is None,
            },
    {
        let mut i: usize = 0;
        while i < self.cells.len() && !self.cells[i].cell.component_name.is(component)
            invariant
                i <= self.cells@.len(),
                forall|j: int|
                    0 <= j < i ==> (#[trigger] self.cells@[j]).cell.component_name@ != component@,
            decreases self.cells@.len() - i,
        {
            i += 1;
        }
        proof {
            lemma_static_cell_of(self.cells@, component@, i as int);
        }
        if i < self.cells.len() {
            Some((self.cells[i].row_id, self.cells[i].cell.clone()))
        } else {
            None
        }
    }
}

impl DataStore {
    /// The latest cell of a component of an entity, with the time and the row that it was logged
    /// with.
    pub fn latest_at(
        &self,
        query: &LatestAtQuery,
        entity_path: &EntityPath,
        component: &ComponentName,
    ) -> (r: Option<(TimeInt, RowId, DataCell)>)
        requires
            self.wf(),
        ensures
            entry_of(r) == latest_entry(
                self@,
                *query,
                entity_path_hash(*entity_path),
                component@,
            ),
    {
        let hash: u64 = path_hash(entity_path);
        if let Some(i) = find_static(&self.static_tables, hash) {
            if let Some((row_id, cell)) = self.static_tables[i].find(component) {
                return Some((TimeInt { value: TIME_STATIC }, row_id, cell));
            }
        }
        match find_table(&self.tables, hash, &query.timeline) {
            Some(i) => {
                proof {
                    lemma_slot_index(
                        self@.tables,
                        self.config.store_insert_ids,
                        hash,
                        query.timeline@,
                        i as int,
                    );
                    assert(self.tables@[i as int].table.wf());
                }
                self.tables[i].table.latest_at(query.at, component)
            },
            None => None,
        }
    }

    /// The data type that a component was first logged with.
    pub fn lookup_datatype(&self, component: &ComponentName) -> (r: Option<DataType>)
        ensures
            r == type_of(self@.types, component@),
    {
        match find_type(&self.type_registry, component) {
            Some(i) => {
                proof {
                    lemma_type_of(self.type_registry@, component@, i as int);
                }
                Some(self.type_registry[i].1)
            },
            None => {
                proof {
                    let n = self.type_registry@.len() as int;
                    assert forall|j: int| 0 <= j < n implies (
                    #[trigger] self.type_registry@[j]).0@ != component@ by {}
                    lemma_type_of(self.type_registry@, component@, n);
                }
                None
            },
        }
    }
}

/// Law: the data type of a component is that of the first cell of it that was ever added.
pub proof fn law_the_first_type_stays(
    types: Seq<(ComponentName, DataType)>,
    cells: Seq<DataCell>,
    component: Seq<char>,
)
    ensures
        type_of(types, component) is Some ==> type_of(types_with(types, cells), component)
            == type_of(types, component),
        type_of(types, component) is None ==> match type_of(types_with(types, cells), component) {
            Some(datatype) => exists|i: int|
                0 <= i < cells.len() && (#[trigger] cells[i]).component_name@ == component
                    && cells[i].datatype == datatype && forall|j: int|
                    0 <= j < i ==> (#[trigger] cells[j]).component_name@ != component,
            None => !has_component(cells, component),
        },
    decreases cells.len(),
{
    if cells.len() > 0 {
        let init = cells.drop_last();
        let n = init.len() as int;
        let rest = types_with(types, init);
        let all = types_with(types, cells);
        law_the_first_type_stays(types, init, component);
        lemma_is_typed(rest, component);
        lemma_is_typed(rest, cells.last().component_name@);
        if !has_type(rest, cells.last().component_name@) {
            lemma_type_of_more(rest, (cells.last().component_name, cells.last().datatype), component);
        }
        if type_of(types, component) is None {
            match type_of(rest, component) {
                Some(datatype) => {
                    let i = choose|i: int|
                        0 <= i < init.len() && (#[trigger] init[i]).component_name@ == component
                            && init[i].datatype == datatype && forall|j: int|
                            0 <= j < i ==> (#[trigger] init[j]).component_name@ != component;
                    assert(cells[i] == init[i]);
                    assert forall|j: int| 0 <= j < i implies (#[trigger] cells[j]).component_name@
                        != component by {
                        assert(init[j] == cells[j]);
                    }
                },
                None => {
                    assert forall|j: int| 0 <= j < n implies (#[trigger] cells[j]).component_name@
                        != component by {
                        assert(init[j] == cells[j]);
                    }
                    if cells[n].component_name@ == component {
                        assert(type_of(all, component) == Some(cells[n].datatype));
                    }
                },
            }
        }
    }
}

proof fn lemma_is_typed(types: Seq<(ComponentName, DataType)>, component: Seq<char>)
    ensures
        type_of(types, component) is Some <==> has_type(types, component),
    decreases types.len(),
{
    if types.len() > 0 {
        let rest = types.skip(1);
        lemma_is_typed(rest, component);
        if has_type(rest, component) {
            let i = choose|i: int| 0 <= i < rest.len() && (#[trigger] rest[i]).0@ == component;
            assert(types[i + 1].0@ == component);
        }
        if has_type(types, component) {
            let i = choose|i: int| 0 <= i < types.len() && (#[trigger] types[i]).0@ == component;
            if i > 0 {
                assert(rest[i - 1].0@ == component);
            }
        }
    }
}

proof fn lemma_type_of_more(
    types: Seq<(ComponentName, DataType)>,
    one: (ComponentName, DataType),
    component: Seq<char>,
)
    requires
        !has_type(types, one.0@),
    ensures
        type_of(types.push(one), component) == if one.0@ == component {
            Some(one.1)
        } else {
            type_of(types, component)
        },
    decreases types.len(),
{
    let all = types.push(one);
    if types.len() > 0 {
        let rest = types.skip(1);
        assert(!has_type(rest, one.0@)) by {
            if has_type(rest, one.0@) {
                let i = choose|i: int| 0 <= i < rest.len() && (#[trigger] rest[i]).0@ == one.0@;
                assert(types[i + 1].0@ == one.0@);
            }
        }
        assert(types[0].0@ != one.0@);
        lemma_type_of_more(rest, one, component);
        assert(all.skip(1) =~= rest.push(one));
        assert(all[0] == types[0]);
    } else {
        reveal_with_fuel(type_of, 2);
        assert(all.skip(1) =~= Seq::empty());
    }
}

} // verus!

//! Keeping a database small, and getting data out of it.
use crate::bucket::{present, row_index, IndexedBucketInner, ResolvedTimeRange};
use crate::clear::{cleared_by, ClearedEntityView, ClearedRowView};
use crate::components::{clear_indicator_name, clear_is_recursive_name};
use crate::entity_db::{empty_db, DbView, EntityDb, SetStoreInfo, StoreInfo};
use crate::gc::{
    collected, lemma_plus_wrapping_step, plus_wrapping, up_after, without_rows,
    GarbageCollectionOptions, GarbageCollectionTarget,
};
use crate::ingest::{
    cascade_entities, cascade_entity, cascade_rows, cleared_cells, new_row_id, none_above,
    row_step_with, row_views, rows_added, rows_wf, BlueprintActivationCommand, Cascade, LogMsg,
};
use crate::names::{
    temporal, ComponentName, RowId, StoreId, StoreKind, TimeInt, Timeline, TIME_MIN,
};
use crate::path::{clone_path, entity_path_hash};
use crate::paths::get_path;
use crate::retry::{
    inserted, law_retries_change_only_the_counter, DEFAULT_INSERT_ROW_STEP_SIZE,
    MAX_INSERT_ROW_ATTEMPTS,
};
use crate::row::{
    components_distinct, event_diffs, timelines_distinct, times_temporal, DataCell, DataRow,
    DataType, DiffView, RowView, StoreEvent, TimePoint,
};
use crate::sorting::{lemma_ordered, BucketRow};
use crate::store::{
    addition_of, find_static, find_table, lemma_slot_index, metas_below, slot_index, static_index,
    DataStoreConfig, RowMeta, RowMetadata, StaticCell, StaticTable, StoreView, WriteError,
};
use crate::table::{bucket_of, lemma_table_bucket_of, IndexedTable, TableView};
use crate::times::{histograms_after, times_after};
use crate::tree::{tree_after, EntityTree};
use vstd::prelude::*;

verus! {

/// How long a collection of garbage may take while someone is waiting, in nanoseconds.
pub const DEFAULT_GC_TIME_BUDGET_NANOS: u128 = 3_500_000;

/// Whether collecting garbage may end in a given way.
pub open spec fn gc_step(
    before: DbView,
    bucket_num_rows: u64,
    options: GarbageCollectionOptions,
    after: DbView,
    elapsed_nanos: spec_fn(int) -> u128,
) -> bool {
    let end = collected(
        before.store,
        bucket_num_rows,
        options,
        up_after(elapsed_nanos, options.time_budget_nanos),
    );
    after == (DbView {
        times: times_after(before.times, end.diffs),
        histograms: histograms_after(before.histograms, end.diffs),
        tree: tree_after(before.tree, end.diffs),
        store: end.store,
        ..before
    })
}

/// What collecting garbage reports.
pub open spec fn gc_diffs(
    before: DbView,
    bucket_num_rows: u64,
    options: GarbageCollectionOptions,
    elapsed_nanos: spec_fn(int) -> u128,
) -> Seq<DiffView> {
    collected(
        before.store,
        bucket_num_rows,
        options,
        up_after(elapsed_nanos, options.time_budget_nanos),
    ).diffs
}

/// Whether these are the options for dropping everything but the latest row of each component.
pub open spec fn keeps_only_latest(options: GarbageCollectionOptions) -> bool {
    &&& options.target is Everything
    &&& options.protect_latest == 1
    &&& options.purge_empty_tables
    &&& options.dont_protect@.len() == 2
    &&& options.dont_protect@[0]@ == "rerun.components.ClearIsRecursive"@
    &&& options.dont_protect@[1]@ == "rerun.components.ClearIndicator"@
    &&& !options.enable_batching
    &&& options.time_budget_nanos == DEFAULT_GC_TIME_BUDGET_NANOS
}

/// Whether these are the options for dropping some bytes, oldest rows first.
pub open spec fn drops_at_least(options: GarbageCollectionOptions, num_bytes: u128) -> bool {
    &&& options.target == GarbageCollectionTarget::DropAtLeastBytes(num_bytes)
    &&& options.protect_latest == 1
    &&& !options.purge_empty_tables
    &&& options.dont_protect@.len() == 0
    &&& !options.enable_batching
    &&& options.time_budget_nanos == DEFAULT_GC_TIME_BUDGET_NANOS
}

impl EntityDb {
    /// Drops everything but the latest row of each component of each entity.
    ///
    /// Returns what went.
    pub fn gc_everything_but_the_latest_row(&mut self) -> (r: Vec<StoreEvent>)
        requires
            old(self).wf(),
            old(self).data_store.gc_id < u64::MAX,
        ensures
            final(self).wf(),
            final(self).data_store.id == old(self).data_store.id,
            final(self).data_store.config == old(self).data_store.config,
            final(self).set_store_info == old(self).set_store_info,
            final(self).data_source == old(self).data_source,
            final(self).last_modified_at == old(self).last_modified_at,
            exists|options: GarbageCollectionOptions, elapsed_nanos: spec_fn(int) -> u128|
                keeps_only_latest(options) && #[trigger] gc_step(
                    old(self)@,
                    old(self).data_store.config.indexed_bucket_num_rows,
                    options,
                    final(self)@,
                    elapsed_nanos,
                ) && event_diffs(r@) == gc_diffs(
                    old(self)@,
                    old(self).data_store.config.indexed_bucket_num_rows,
                    options,
                    elapsed_nanos,
                ),
    {
        let mut dont_protect: Vec<ComponentName> = Vec::new();
        dont_protect.push(clear_is_recursive_name());
        dont_protect.push(clear_indicator_name());
        let options = GarbageCollectionOptions {
            target: GarbageCollectionTarget::Everything,
            time_budget_nanos: DEFAULT_GC_TIME_BUDGET_NANOS,
            protect_latest: 1,
            purge_empty_tables: true,
            dont_protect,
            enable_batching: false,
        };
        self.gc(&options)
    }

    /// Frees some memory by forgetting the older parts of all timelines.
    ///
    /// Returns what went.
    pub fn purge_at_least(&mut self, num_bytes: u128) -> (r: Vec<StoreEvent>)
        requires
            old(self).wf(),
            old(self).data_store.gc_id < u64::MAX,
        ensures
            final(self).wf(),
            final(self).data_store.id == old(self).data_store.id,
            final(self).data_store.config == old(self).data_store.config,
            final(self).set_store_info == old(self).set_store_info,
            final(self).data_source == old(self).data_source,
            final(self).last_modified_at == old(self).last_modified_at,
            exists|options: GarbageCollectionOptions, elapsed_nanos: spec_fn(int) -> u128|
                drops_at_least(options, num_bytes) && #[trigger] gc_step(
                    old(self)@,
                    old(self).data_store.config.indexed_bucket_num_rows,
                    options,
                    final(self)@,
                    elapsed_nanos,
                ) && event_diffs(r@) == gc_diffs(
                    old(self)@,
                    old(self).data_store.config.indexed_bucket_num_rows,
                    options,
                    elapsed_nanos,
                ),
    {
        let options = GarbageCollectionOptions {
            target: GarbageCollectionTarget::DropAtLeastBytes(num_bytes),
            time_budget_nanos: DEFAULT_GC_TIME_BUDGET_NANOS,
            protect_latest: 1,
            purge_empty_tables: false,
            dont_protect: Vec::new(),
            enable_batching: false,
        };
        self.gc(&options)
    }

    /// Collects garbage.
    ///
    /// Returns what went.
    pub fn gc(&mut self, gc_options: &GarbageCollectionOptions) -> (r: Vec<StoreEvent>)
        requires
            old(self).wf(),
            old(self).data_store.gc_id < u64::MAX,
        ensures
            final(self).wf(),
            final(self).data_store.id == old(self).data_store.id,
            final(self).data_store.config == old(self).data_store.config,
            final(self).set_store_info == old(self).set_store_info,
            final(self).data_source == old(self).data_source,
            final(self).last_modified_at == old(self).last_modified_at,
            exists|elapsed_nanos: spec_fn(int) -> u128| #[trigger]
                gc_step(
                    old(self)@,
                    old(self).data_store.config.indexed_bucket_num_rows,
                    *gc_options,
                    final(self)@,
                    elapsed_nanos,
                ) && event_diffs(r@) == gc_diffs(
                    old(self)@,
                    old(self).data_store.config.indexed_bucket_num_rows,
                    *gc_options,
                    elapsed_nanos,
                ),
    {
        let ghost before = self@;
        let ghost bucket_num_rows = self.data_store.config.indexed_bucket_num_rows;
        let (events, _) = self.data_store.gc(gc_options);
        let ghost clock = choose|elapsed_nanos: spec_fn(int) -> u128|
            ({
                let end = #[trigger] collected(
                    before.store,
                    bucket_num_rows,
                    *gc_options,
                    up_after(elapsed_nanos, gc_options.time_budget_nanos),
                );
                &&& self.data_store@ == end.store
                &&& event_diffs(events@) == end.diffs
            });
        self.on_store_deletions(&events);
        assert(gc_step(before, bucket_num_rows, *gc_options, self@, clock));
        events
    }

    /// Takes note of what was removed from the store.
    fn on_store_deletions(&mut self, store_events: &Vec<StoreEvent>)
        requires
            old(self).wf(),
        ensures
            final(self).wf(),
            final(self)@ == (DbView {
                times: times_after(old(self)@.times, event_diffs(store_events@)),
                histograms: histograms_after(old(self)@.histograms, event_diffs(store_events@)),
                tree: tree_after(old(self)@.tree, event_diffs(store_events@)),
                ..old(self)@
            }),
            final(self).data_store == old(self).data_store,
            final(self).set_store_info == old(self).set_store_info,
            final(self).data_source == old(self).data_source,
            final(self).last_modified_at == old(self).last_modified_at,
    {
        self.times_per_timeline.on_events(store_events);
        self.time_histograms.on_cells(store_events);
        self.tree.on_events(store_events);
    }
}

// --- Generations.

/// Every row that a cascade adds is one more insertion.
proof fn lemma_cascade_entities_generation(
    at: Cascade,
    config: DataStoreConfig,
    types: Seq<(ComponentName, DataType)>,
    entities: Seq<ClearedEntityView>,
    randoms: Seq<Seq<u64>>,
)
    ensures
        ({
            let end = cascade_entities(at, config, types, entities, randoms);
            &&& at.store.registry.len() <= end.store.registry.len()
            &&& end.store.insert_id == plus_wrapping(
                at.store.insert_id,
                end.store.registry.len() - at.store.registry.len(),
            )
            &&& end.store.gc_id == at.store.gc_id
        }),
    decreases entities.len(),
{
    lemma_plus_wrapping_step(at.store.insert_id, 0);
    if entities.len() > 0 {
        lemma_cascade_entities_generation(at, config, types, entities.drop_last(), randoms);
        let mid = cascade_entities(at, config, types, entities.drop_last(), randoms);
        lemma_plus_wrapping_step(at.store.insert_id, mid.store.registry.len() - at.store.registry.len());
        let entity = entities.last();
        law_retries_change_only_the_counter(
            mid.store,
            config,
            RowView {
                row_id: mid.row_id,
                times: entity.times,
                entity_path: entity.entity_path,
                cells: cleared_cells(types, entity.components),
            },
            MAX_INSERT_ROW_ATTEMPTS as nat,
            DEFAULT_INSERT_ROW_STEP_SIZE,
            randoms[entities.len() - 1],
        );
        let end = cascade_entity(mid, config, types, entity, randoms[entities.len() - 1]);
        if end.diffs.len() > mid.diffs.len() {
            lemma_metas_below_bounds(mid.store.registry, end.diffs.last().row_id);
        }
    }
}

proof fn lemma_metas_below_bounds(registry: Seq<RowMeta>, row_id: RowId)
    ensures
        0 <= metas_below(registry, row_id) <= registry.len(),
    decreases registry.len(),
{
    if registry.len() > 0 {
        lemma_metas_below_bounds(registry.drop_last(), row_id);
    }
}

proof fn lemma_plus_wrapping_twice(n: u64, a: int, b: int)
    requires
        a >= 0,
        b >= 0,
    ensures
        plus_wrapping(plus_wrapping(n, a), b) == plus_wrapping(n, a + b),
    decreases b,
{
    if b == 0 {
        lemma_plus_wrapping_step(plus_wrapping(n, a), 0);
    } else {
        lemma_plus_wrapping_twice(n, a, b - 1);
        lemma_plus_wrapping_step(plus_wrapping(n, a), b - 1);
        lemma_plus_wrapping_step(n, a + b - 1);
    }
}

proof fn lemma_cascade_rows_generation(
    at: Cascade,
    config: DataStoreConfig,
    types: Seq<(ComponentName, DataType)>,
    rows: Seq<ClearedRowView>,
    randoms: Seq<Seq<Seq<u64>>>,
)
    ensures
        ({
            let end = cascade_rows(at, config, types, rows, randoms);
            &&& at.store.registry.len() <= end.store.registry.len()
            &&& end.store.insert_id == plus_wrapping(
                at.store.insert_id,
                end.store.registry.len() - at.store.registry.len(),
            )
            &&& end.store.gc_id == at.store.gc_id
        }),
    decreases rows.len(),
{
    lemma_plus_wrapping_step(at.store.insert_id, 0);
    if rows.len() > 0 {
        lemma_cascade_rows_generation(at, config, types, rows.drop_last(), randoms);
        let mid = cascade_rows(at, config, types, rows.drop_last(), randoms);
        let from = Cascade { row_id: rows.last().row_id, ..mid };
        lemma_cascade_entities_generation(
            from,
            config,
            types,
            rows.last().entities,
            randoms[rows.len() - 1],
        );
        let end = cascade_rows(at, config, types, rows, randoms);
        lemma_plus_wrapping_twice(
            at.store.insert_id,
            mid.store.registry.len() - at.store.registry.len(),
            end.store.registry.len() - mid.store.registry.len(),
        );
    }
}

/// Law: adding a row changes the generation, which counts every row that is added, those that
/// clear others among them. One that is refused leaves it as it was.
pub proof fn law_additions_show_in_the_generation(
    before: DbView,
    config: DataStoreConfig,
    row: RowView,
    after: DbView,
    failure: Option<WriteError>,
    randoms: Seq<u64>,
    tree: EntityTree,
    more: Seq<Seq<Seq<u64>>>,
    now: Option<u64>,
)
    requires
        row_step_with(before, config, row, after, failure, randoms, tree, more, now),
        after.store.registry.len() < 0xffff_ffff_ffff_ffff,
    ensures
        after.store.gc_id == before.store.gc_id,
        failure is Some ==> after.store.insert_id == before.store.insert_id,
        failure is None ==> after.store.insert_id != before.store.insert_id,
        failure is None ==> after.store.insert_id == plus_wrapping(
            before.store.insert_id,
            after.store.registry.len() - before.store.registry.len(),
        ),
{
    law_retries_change_only_the_counter(
        before.store,
        config,
        row,
        MAX_INSERT_ROW_ATTEMPTS as nat,
        DEFAULT_INSERT_ROW_STEP_SIZE,
        randoms,
    );
    if failure is None {
        let first = inserted(
            before.store,
            config,
            row,
            MAX_INSERT_ROW_ATTEMPTS as nat,
            DEFAULT_INSERT_ROW_STEP_SIZE,
            randoms,
        );
        let added = first.outcome->Ok_0;
        lemma_metas_below_bounds(before.store.registry, added.row_id);
        lemma_cascade_rows_generation(
            Cascade { store: first.store, row_id: RowId { bits: 0 }, diffs: Seq::empty() },
            config,
            first.store.types,
            cleared_by(tree, addition_of(added)),
            more,
        );
        let n = after.store.registry.len() - before.store.registry.len();
        lemma_plus_wrapping_step(before.store.insert_id, 0);
        lemma_plus_wrapping_twice(before.store.insert_id, 1, n - 1);
        lemma_plus_wrapping_moves(before.store.insert_id, n);
    }
}

proof fn lemma_plus_wrapping_moves(n: u64, m: int)
    requires
        0 < m < 0x1_0000_0000_0000_0000,
    ensures
        plus_wrapping(n, m) != n,
{
    let sum = n + m;
    if sum < 0x1_0000_0000_0000_0000 {
        vstd::arithmetic::div_mod::lemma_small_mod(sum as nat, 0x1_0000_0000_0000_0000);
    } else {
        vstd::arithmetic::div_mod::lemma_fundamental_div_mod_converse(
            sum,
            0x1_0000_0000_0000_0000,
            1,
            sum - 0x1_0000_0000_0000_0000,
        );
    }
}

/// Law: collecting garbage changes the generation.
pub proof fn law_collections_show_in_the_generation(
    before: DbView,
    bucket_num_rows: u64,
    options: GarbageCollectionOptions,
    after: DbView,
    elapsed_nanos: spec_fn(int) -> u128,
)
    requires
        gc_step(before, bucket_num_rows, options, after, elapsed_nanos),
        before.store.gc_id < u64::MAX,
    ensures
        after.store.gc_id == before.store.gc_id + 1,
        after.store.insert_id == before.store.insert_id,
{
}

/// Taking rows off the register leaves only rows that were on it.
proof fn lemma_without_rows(registry: Seq<RowMeta>, diffs: Seq<DiffView>)
    ensures
        forall|i: int|
            0 <= i < without_rows(registry, diffs).len() ==> registry.contains(
                #[trigger] without_rows(registry, diffs)[i],
            ),
    decreases diffs.len(),
{
    if diffs.len() == 0 {
        assert forall|i: int| 0 <= i < registry.len() implies registry.contains(
            #[trigger] registry[i],
        ) by {}
    } else {
        lemma_without_rows(registry, diffs.drop_last());
        let rest = without_rows(registry, diffs.drop_last());
        let at = metas_below(rest, diffs.last().row_id);
        crate::ingest::lemma_metas_below_bounds(rest, diffs.last().row_id);
        let out = without_rows(registry, diffs);
        assert forall|i: int| 0 <= i < out.len() implies registry.contains(#[trigger] out[i]) by {
            if out.len() < rest.len() && i >= at {
                assert(out[i] == rest[i + 1]);
            } else {
                assert(out[i] == rest[i]);
            }
        }
    }
}

/// Law: collecting garbage forgets none of the paths that were logged to, and no row in the store
/// has a higher id than the latest one if none had before.
pub proof fn law_collections_keep_paths_and_latest_row_id(
    before: DbView,
    bucket_num_rows: u64,
    options: GarbageCollectionOptions,
    after: DbView,
    elapsed_nanos: spec_fn(int) -> u128,
)
    requires
        gc_step(before, bucket_num_rows, options, after, elapsed_nanos),
    ensures
        after.paths == before.paths,
        after.latest_row_id == before.latest_row_id,
        none_above(before.store.registry, before.latest_row_id) ==> none_above(
            after.store.registry,
            after.latest_row_id,
        ),
{
    let end = crate::progress::sweep_of(
        before.store,
        bucket_num_rows,
        options,
        up_after(elapsed_nanos, options.time_budget_nanos),
    );
    lemma_without_rows(before.store.registry, end.diffs);
    if none_above(before.store.registry, before.latest_row_id) {
        let out = after.store.registry;
        assert forall|i: int| 0 <= i < out.len() implies after.latest_row_id is Some && (
        #[trigger] out[i]).row_id.bits <= after.latest_row_id->0.bits by {
            assert(before.store.registry.contains(out[i]));
            let k = before.store.registry.index_of(out[i]);
            assert(before.store.registry[k] == out[i]);
        }
    }
}

// --- Messages.

/// A time between two whole ones: a fixed-point number with sixty-four bits after the point.
#[derive(Clone, Copy, Debug, PartialEq, Eq, Structural)]
pub struct TimeReal {
    pub bits: i128,
}

/// Two to the power of sixty-four.
pub const TIME_REAL_ONE: i128 = 0x1_0000_0000_0000_0000;

/// The greatest whole number that is not greater.
pub open spec fn floor_spec(time: TimeReal) -> int {
    time.bits as int / TIME_REAL_ONE as int
}

/// The smallest whole number that is not smaller, unless it is too large for a time.
pub open spec fn ceil_spec(time: TimeReal) -> int {
    let floor = floor_spec(time);
    if floor * TIME_REAL_ONE == time.bits || floor == i64::MAX {
        floor
    } else {
        floor + 1
    }
}

impl TimeReal {
    /// The last whole time that is not later.
    pub fn floor(&self) -> (r: TimeInt)
        ensures
            r == temporal(floor_spec(*self) as i64),
            i64::MIN <= floor_spec(*self) <= i64::MAX,
    {
        let whole: i128 = self.whole();
        TimeInt::new_temporal(whole as i64)
    }

    fn whole(&self) -> (r: i128)
        ensures
            r == floor_spec(*self),
            i64::MIN <= r <= i64::MAX,
    {
        if self.bits >= 0 {
            let n: u128 = self.bits as u128 / 0x1_0000_0000_0000_0000;
            proof {
                vstd::arithmetic::div_mod::lemma_fundamental_div_mod(
                    self.bits as int,
                    TIME_REAL_ONE as int,
                );
            }
            n as i128
        } else {
            let below: u128 = (-(self.bits + 1)) as u128;
            let n: u128 = below / 0x1_0000_0000_0000_0000;
            let r: i128 = -(n as i128) - 1;
            proof {
                let t = TIME_REAL_ONE as int;
                let b = -(self.bits + 1);
                vstd::arithmetic::div_mod::lemma_fundamental_div_mod(b, t);
                vstd::arithmetic::div_mod::lemma_fundamental_div_mod_converse(
                    self.bits as int,
                    t,
                    r as int,
                    t - 1 - b % t,
                );
            }
            r
        }
    }

    /// The first whole time that is not earlier.
    pub fn ceil(&self) -> (r: TimeInt)
        ensures
            r == temporal(ceil_spec(*self) as i64),
            i64::MIN <= ceil_spec(*self) <= i64::MAX,
    {
        let whole: i128 = self.whole();
        if whole * TIME_REAL_ONE == self.bits || whole == i64::MAX as i128 {
            TimeInt::new_temporal(whole as i64)
        } else {
            TimeInt::new_temporal((whole + 1) as i64)
        }
    }
}

/// The range of whole times that covers a selection.
pub fn time_filter(selection: Option<(Timeline, (TimeReal, TimeReal))>) -> (r: Option<
    (Timeline, ResolvedTimeRange),
>)
    ensures
        match (selection, r) {
            (Some((timeline, (min, max))), Some((same, range))) => {
                &&& same == timeline
                &&& range.min == temporal(floor_spec(min) as i64)
                &&& range.max == temporal(ceil_spec(max) as i64)
            },
            (None, None) => true,
            _ => false,
        },
{
    match selection {
        Some((timeline, (min, max))) => Some(
            (timeline, ResolvedTimeRange { min: min.floor(), max: max.ceil() }),
        ),
        None => None,
    }
}

/// Whether a selection of times covers what was logged at some times. What is static always is.
pub open spec fn covers_times(
    filter: Option<(Timeline, ResolvedTimeRange)>,
    times: Seq<(Timeline, TimeInt)>,
) -> bool {
    match filter {
        Some((timeline, range)) => times.len() == 0 || exists|j: int|
            0 <= j < times.len() && (#[trigger] times[j]).0@ == timeline@ && range.min.value
                <= times[j].1.value <= range.max.value,
        None => true,
    }
}

/// The rows that a selection of times covers.
pub open spec fn selected_rows(
    rows: Seq<RowView>,
    filter: Option<(Timeline, ResolvedTimeRange)>,
) -> Seq<RowView>
    decreases rows.len(),
{
    if rows.len() == 0 {
        rows
    } else {
        let rest = selected_rows(rows.drop_last(), filter);
        if covers_times(filter, rows.last().times) {
            rest.push(rows.last())
        } else {
            rest
        }
    }
}

fn is_covered(timepoint: &TimePoint, filter: &Option<(Timeline, ResolvedTimeRange)>) -> (r: bool)
    ensures
        r == covers_times(*filter, timepoint.times@),
{
    let (timeline, range) = match filter {
        Some((timeline, range)) => (timeline, range),
        None => {
            return true;
        },
    };
    if timepoint.times.len() == 0 {
        return true;
    }
    let mut i: usize = 0;
    while i < timepoint.times.len()
        invariant
            i <= timepoint.times@.len(),
            timepoint.times@.len() > 0,
            *filter == Some((*timeline, *range)),
            forall|j: int|
                0 <= j < i ==> !((#[trigger] timepoint.times@[j]).0@ == timeline@
                    && range.min.value <= timepoint.times@[j].1.value <= range.max.value),
        decreases timepoint.times@.len() - i,
    {
        let time: i64 = timepoint.times[i].1.value;
        if timepoint.times[i].0.is(timeline) && range.min.value <= time && time
            <= range.max.value {
            assert(timepoint.times@[i as int].0@ == timeline@);
            return true;
        }
        i += 1;
    }
    false
}

/// Everything that is to be said about what a store is, before its data.
pub open spec fn info_messages<D>(info: Option<SetStoreInfo>) -> Seq<LogMsg<D>> {
    match info {
        Some(msg) => seq![LogMsg::SetStoreInfo(msg)],
        None => Seq::empty(),
    }
}

/// Everything that is to be said about a store after its data: a blueprint is to become the active
/// and the default one when it is loaded again.
pub open spec fn activation_messages<D>(id: StoreId) -> Seq<LogMsg<D>> {
    if id.kind is Blueprint {
        seq![
            LogMsg::BlueprintActivationCommand(
                BlueprintActivationCommand {
                    blueprint_id: id,
                    make_active: true,
                    make_default: true,
                },
            ),
        ]
    } else {
        Seq::empty()
    }
}

impl EntityDb {
    /// Puts together the messages that make up the current contents, given those that hold data.
    ///
    /// Fails with the first failure among the data, if there is one.
    pub fn to_messages<D, E>(&self, data_messages: Vec<Result<D, E>>) -> (r: Result<
        Vec<LogMsg<D>>,
        E,
    >)
        ensures
            match r {
                Ok(messages) => {
                    &&& forall|i: int|
                        0 <= i < data_messages@.len() ==> (#[trigger] data_messages@[i]) is Ok
                    &&& messages@ == info_messages(self.set_store_info) + Seq::new(
                        data_messages@.len(),
                        |i: int| LogMsg::Data(self.data_store.id, data_messages@[i]->Ok_0),
                    ) + activation_messages(self.data_store.id)
                },
                Err(error) => exists|i: int|
                    0 <= i < data_messages@.len() && (#[trigger] data_messages@[i]) == Err::<D, E>(
                        error,
                    ) && forall|j: int| 0 <= j < i ==> (#[trigger] data_messages@[j]) is Ok,
            },
    {
        let mut messages: Vec<LogMsg<D>> = Vec::new();
        if let Some(msg) = &self.set_store_info {
            messages.push(LogMsg::SetStoreInfo(msg.clone()));
        }
        let ghost head = info_messages::<D>(self.set_store_info);
        let ghost given = data_messages@;
        let ghost id = self.data_store.id;
        let mut rest = data_messages;
        let n: usize = rest.len();
        let mut i: usize = 0;
        assert(messages@ =~= head + Seq::new(
            0,
            |i: int| LogMsg::Data(id, given[i]->Ok_0),
        ));
        while i < n
            invariant
                i <= n,
                n == given.len(),
                given == data_messages@,
                id == self.data_store.id,
                rest@ == given.skip(i as int),
                forall|j: int| 0 <= j < i ==> (#[trigger] given[j]) is Ok,
                messages@ == head + Seq::new(
                    i as nat,
                    |i: int| LogMsg::Data(id, given[i]->Ok_0),
                ),
            decreases n - i,
        {
            let next = rest.remove(0);
            assert(next == given[i as int]);
            assert(rest@ =~= given.skip(i + 1));
            match next {
                Ok(data) => {
                    messages.push(LogMsg::Data(self.data_store.id.clone(), data));
                },
                Err(error) => {
                    assert(given[i as int] == Err::<D, E>(error));
                    return Err(error);
                },
            }
            i += 1;
            assert(messages@ =~= head + Seq::new(
                i as nat,
                |i: int| LogMsg::Data(id, given[i]->Ok_0),
            ));
        }
        let is_blueprint = match self.data_store.id.kind {
            StoreKind::Blueprint => true,
            StoreKind::Recording => false,
        };
        let ghost body = messages@;
        if is_blueprint {
            messages.push(
                LogMsg::BlueprintActivationCommand(
                    BlueprintActivationCommand {
                        blueprint_id: self.data_store.id.clone(),
                        make_active: true,
                        make_default: true,
                    },
                ),
            );
        }
        assert(messages@ =~= body + activation_messages::<D>(id));
        Ok(messages)
    }
}

// --- Rows.

/// The cells of a row of a table, if the row is there.
pub open spec fn cells_in_table(
    table: TableView,
    row_id: RowId,
    time: i64,
) -> Option<Seq<DataCell>> {
    let rows = table.buckets[bucket_of(table.buckets, time)].bucket.rows;
    match row_index(rows, row_id, time) {
        Some(i) => Some(present(rows[i].cells)),
        None => None,
    }
}

/// At which of its times a row is still there, and with which cells.
#[verifier::ext_equal]
pub struct FoundRow {
    pub times: Seq<(Timeline, TimeInt)>,
    pub cells: Option<Seq<DataCell>>,
}

pub open spec fn find_row(store: StoreView, row: RowMeta, times: Seq<(Timeline, TimeInt)>)
    -> FoundRow
    decreases times.len(),
{
    if times.len() == 0 {
        FoundRow { times, cells: None }
    } else {
        let st = find_row(store, row, times.drop_last());
        let (timeline, time) = times.last();
        match slot_index(store.tables, row.hash, timeline@) {
            Some(i) => match cells_in_table(store.tables[i].table, row.row_id, time.value) {
                Some(cells) => FoundRow {
                    times: st.times.push((timeline, time)),
                    cells: if st.cells is Some {
                        st.cells
                    } else {
                        Some(cells)
                    },
                },
                None => st,
            },
            None => st,
        }
    }
}

/// Those static cells that came with a given row.
pub open spec fn static_cells_of_row(cells: Seq<StaticCell>, row_id: RowId) -> Seq<DataCell>
    decreases cells.len(),
{
    if cells.len() == 0 {
        Seq::empty()
    } else {
        let rest = static_cells_of_row(cells.drop_last(), row_id);
        if cells.last().row_id == row_id {
            rest.push(cells.last().cell)
        } else {
            rest
        }
    }
}

/// What is left of a registered row, if anything.
pub open spec fn stored_row(db: DbView, row: RowMeta) -> Option<RowView> {
    if !db.paths.contains_key(row.hash) {
        None
    } else {
        let entity_path = db.paths[row.hash];
        if row.times.len() == 0 {
            match static_index(db.store.statics, row.hash) {
                Some(i) => {
                    let cells = static_cells_of_row(db.store.statics[i].cells, row.row_id);
                    if cells.len() == 0 {
                        None
                    } else {
                        Some(RowView { row_id: row.row_id, times: row.times, entity_path, cells })
                    }
                },
                None => None,
            }
        } else {
            let found = find_row(db.store, row, row.times);
            match found.cells {
                Some(cells) => Some(
                    RowView { row_id: row.row_id, times: found.times, entity_path, cells },
                ),
                None => None,
            }
        }
    }
}

/// What is left of registered rows, in the order of their ids.
pub open spec fn stored_rows(db: DbView, rows: Seq<RowMeta>) -> Seq<RowView>
    decreases rows.len(),
{
    if rows.len() == 0 {
        Seq::empty()
    } else {
        let rest = stored_rows(db, rows.drop_last());
        match stored_row(db, rows.last()) {
            Some(row) => rest.push(row),
            None => rest,
        }
    }
}

proof fn lemma_present_distinct(cells: Seq<Option<DataCell>>, columns: Seq<Seq<char>>)
    requires
        cells.len() == columns.len(),
        crate::bucket::names_distinct(columns),
        forall|k: int|
            0 <= k < cells.len() && (#[trigger] cells[k]) is Some
                ==> cells[k]->0.component_name@ == columns[k],
    ensures
        components_distinct(present(cells)),
        forall|i: int|
            0 <= i < present(cells).len() ==> columns.contains(
                (#[trigger] present(cells)[i]).component_name@,
            ),
    decreases cells.len(),
{
    if cells.len() > 0 {
        let init = cells.drop_last();
        let names = columns.drop_last();
        assert(crate::bucket::names_distinct(names)) by {
            assert forall|i: int, j: int|
                #![trigger names[i], names[j]]
                0 <= i < j < names.len() implies names[i] != names[j] by {
                assert(columns[i] != columns[j]);
            }
        }
        assert forall|k: int| 0 <= k < init.len() && (#[trigger] init[k]) is Some implies init[k]->0.component_name@
            == names[k] by {
            assert(cells[k] is Some);
        }
        lemma_present_distinct(init, names);
        let rest = present(init);
        let all = present(cells);
        assert forall|i: int| 0 <= i < all.len() implies columns.contains(
            (#[trigger] all[i]).component_name@,
        ) by {
            if i < rest.len() {
                assert(names.contains(rest[i].component_name@));
                let k = names.index_of(rest[i].component_name@);
                assert(columns[k] == all[i].component_name@);
            } else {
                assert(columns[columns.len() - 1] == all[i].component_name@);
            }
        }
        assert forall|i: int, j: int|
            #![trigger all[i], all[j]]
            0 <= i < j < all.len() implies all[i].component_name@ != all[j].component_name@ by {
            if j < rest.len() {
                assert(rest[i].component_name@ != rest[j].component_name@);
            } else {
                assert(names.contains(rest[i].component_name@));
                let k = names.index_of(rest[i].component_name@);
                assert(columns[k] != columns[columns.len() - 1]);
            }
        }
    }
}

proof fn lemma_find_row_times(store: StoreView, row: RowMeta, times: Seq<(Timeline, TimeInt)>)
    requires
        timelines_distinct(times),
        times_temporal(times),
    ensures
        timelines_distinct(find_row(store, row, times).times),
        times_temporal(find_row(store, row, times).times),
        forall|i: int|
            0 <= i < find_row(store, row, times).times.len() ==> times.contains(
                #[trigger] find_row(store, row, times).times[i],
            ),
    decreases times.len(),
{
    if times.len() > 0 {
        let init = times.drop_last();
        assert(timelines_distinct(init)) by {
            assert forall|i: int, j: int|
                #![trigger init[i], init[j]]
                0 <= i < j < init.len() implies init[i].0@ != init[j].0@ by {
                assert(times[i].0@ != times[j].0@);
            }
        }
        assert forall|i: int| 0 <= i < init.len() implies (#[trigger] init[i]).1.value
            >= TIME_MIN by {
            assert(times[i].1.value >= TIME_MIN);
        }
        lemma_find_row_times(store, row, init);
        let rest = find_row(store, row, init).times;
        let all = find_row(store, row, times).times;
        assert forall|i: int| 0 <= i < all.len() implies times.contains(#[trigger] all[i]) by {
            if i < rest.len() {
                assert(init.contains(rest[i]));
                assert(times[init.index_of(rest[i])] == all[i]);
            } else {
                assert(times[times.len() - 1] == all[i]);
            }
        }
        assert(times[times.len() - 1].1.value >= TIME_MIN);
        assert forall|i: int, j: int|
            #![trigger all[i], all[j]]
            0 <= i < j < all.len() implies all[i].0@ != all[j].0@ by {
            if j < rest.len() {
                assert(rest[i].0@ != rest[j].0@);
            } else {
                assert(init.contains(rest[i]));
                let k = init.index_of(rest[i]);
                assert(times[k].0@ != times[times.len() - 1].0@);
            }
        }
        assert forall|i: int| 0 <= i < all.len() implies (#[trigger] all[i]).1.value
            >= TIME_MIN by {
            assert(times.contains(all[i]));
            let k = times.index_of(all[i]);
            assert(times[k].1.value >= TIME_MIN);
        }
    }
}

pub proof fn lemma_static_cells_distinct(cells: Seq<StaticCell>, row_id: RowId)
    requires
        crate::store::static_components_distinct(cells),
    ensures
        components_distinct(static_cells_of_row(cells, row_id)),
        forall|i: int|
            0 <= i < static_cells_of_row(cells, row_id).len() ==> exists|k: int|
                0 <= k < cells.len() && (#[trigger] cells[k]).cell == #[trigger]
                static_cells_of_row(cells, row_id)[i],
    decreases cells.len(),
{
    if cells.len() > 0 {
        let init = cells.drop_last();
        assert forall|i: int, j: int|
            #![trigger init[i], init[j]]
            0 <= i < j < init.len() implies init[i].cell.component_name@
            != init[j].cell.component_name@ by {
            assert(cells[i].cell.component_name@ != cells[j].cell.component_name@);
        }
        lemma_static_cells_distinct(init, row_id);
        let rest = static_cells_of_row(init, row_id);
        let all = static_cells_of_row(cells, row_id);
        assert forall|i: int| 0 <= i < all.len() implies exists|k: int|
            0 <= k < cells.len() && (#[trigger] cells[k]).cell == #[trigger] all[i] by {
            if i < rest.len() {
                assert(rest[i] == all[i]);
                let k = choose|k: int|
                    0 <= k < init.len() && (#[trigger] init[k]).cell == rest[i];
                assert(cells[k].cell == all[i]);
            } else {
                assert(cells[cells.len() - 1].cell == all[i]);
            }
        }
        assert forall|i: int, j: int|
            #![trigger all[i], all[j]]
            0 <= i < j < all.len() implies all[i].component_name@ != all[j].component_name@ by {
            if j < rest.len() {
                assert(rest[i].component_name@ != rest[j].component_name@);
            } else {
                assert(rest[i] == all[i]);
                let k = choose|k: int|
                    0 <= k < init.len() && (#[trigger] init[k]).cell == rest[i];
                assert(cells[k].cell.component_name@ != cells[cells.len()
                    - 1].cell.component_name@);
            }
        }
    }
}

impl IndexedBucketInner {
    /// The cells of a row, if the row is there.
    fn row_cells(&self, row_id: RowId, time: TimeInt) -> (r: Option<Vec<DataCell>>)
        requires
            self.wf(),
        ensures
            match (r, row_index(self@.rows, row_id, time.value)) {
                (Some(cells), Some(i)) => {
                    &&& cells@ == present(self@.rows[i].cells)
                    &&& components_distinct(cells@)
                },
                (None, None) => true,
                _ => false,
            },
    {
        let ghost stored = self.stored_rows();
        proof {
            reveal(IndexedBucketInner::wf);
            lemma_ordered(stored);
        }
        let mut i: usize = 0;
        while i < self.col_row_id.len()
            invariant
                i <= self.col_row_id@.len(),
                self.wf(),
                self.aligned(),
                stored == self.stored_rows(),
                forall|x: BucketRow|
                    #![trigger self@.rows.contains(x)]
                    #![trigger stored.contains(x)]
                    self@.rows.contains(x) <==> stored.contains(x),
                forall|j: int|
                    0 <= j < i ==> (#[trigger] stored[j]).row_id != row_id || stored[j].time
                        != time.value,
            decreases self.col_row_id@.len() - i,
        {
            if self.col_row_id[i].bits == row_id.bits && self.col_time[i] == time.value {
                proof {
                    reveal(IndexedBucketInner::wf);
                    let row = stored[i as int];
                    assert(stored.contains(row));
                    let k = self@.rows.index_of(row);
                    assert(self@.rows[k].row_id == row_id && self@.rows[k].time == time.value);
                    let m = row_index(self@.rows, row_id, time.value)->0;
                    if m < k {
                        assert(self@.rows[m].row_id != self@.rows[k].row_id);
                    } else if k < m {
                        assert(self@.rows[k].row_id != self@.rows[m].row_id);
                    }
                    assert forall|c: int|
                        0 <= c < row.cells.len() && (
                        #[trigger] row.cells[c]) is Some implies row.cells[c]->0.component_name@
                        == self@.columns[c] by {
                        assert(self@.rows[k].cells[c] is Some);
                    }
                    lemma_present_distinct(row.cells, self@.columns);
                }
                return Some(self.cells_at(i));
            }
            i += 1;
        }
        proof {
            assert forall|k: int| 0 <= k < self@.rows.len() implies (#[trigger] self@.rows[k]).row_id
                != row_id || self@.rows[k].time != time.value by {
                assert(self@.rows.contains(self@.rows[k]));
                let j = stored.index_of(self@.rows[k]);
                assert(stored[j].row_id != row_id || stored[j].time != time.value);
            }
        }
        None
    }
}

impl IndexedTable {
    /// The cells of a row, if the row is there.
    pub fn row_cells(&self, row_id: RowId, time: TimeInt) -> (r: Option<Vec<DataCell>>)
        requires
            self.wf(),
            time.value >= TIME_MIN,
        ensures
            match (r, cells_in_table(self@, row_id, time.value)) {
                (Some(cells), Some(expected)) => cells@ == expected && components_distinct(cells@),
                (None, None) => true,
                _ => false,
            },
    {
        proof {
            lemma_table_bucket_of(self@, time.value);
        }
        let b: usize = self.find_bucket(time);
        assert(self.buckets@[b as int].inner.wf());
        self.buckets[b].inner.row_cells(row_id, time)
    }
}

impl StaticTable {
    /// Those cells that came with a given row.
    fn cells_of_row(&self, row_id: RowId) -> (r: Vec<DataCell>)
        ensures
            r@ == static_cells_of_row(self.cells@, row_id),
    {
        let mut out: Vec<DataCell> = Vec::new();
        let mut i: usize = 0;
        while i < self.cells.len()
            invariant
                i <= self.cells@.len(),
                out@ == static_cells_of_row(self.cells@.take(i as int), row_id),
            decreases self.cells@.len() - i,
        {
            assert(self.cells@.take(i + 1).drop_last() =~= self.cells@.take(i as int));
            if self.cells[i].row_id.bits == row_id.bits {
                out.push(self.cells[i].cell.clone());
            }
            i += 1;
        }
        assert(self.cells@.take(i as int) =~= self.cells@);
        out
    }
}

impl EntityDb {
    /// What is left of a row in the tables.
    fn find_temporal_row(&self, row: &RowMetadata) -> (r: (
        Vec<(Timeline, TimeInt)>,
        Option<Vec<DataCell>>,
    ))
        requires
            self.wf(),
            timelines_distinct(row.timepoint.times@),
            times_temporal(row.timepoint.times@),
        ensures
            ({
                let found = find_row(self@.store, row@, row.timepoint.times@);
                &&& r.0@ == found.times
                &&& match (r.1, found.cells) {
                    (Some(cells), Some(expected)) => cells@ == expected && components_distinct(
                        cells@,
                    ),
                    (None, None) => true,
                    _ => false,
                }
            }),
    {
        let ghost times = row.timepoint.times@;
        let ghost tables = self@.store.tables;
        let ghost flag = self.data_store.config.store_insert_ids;
        let mut found_times: Vec<(Timeline, TimeInt)> = Vec::new();
        let mut found_cells: Option<Vec<DataCell>> = None;
        let mut t: usize = 0;
        assert(found_times@ =~= Seq::<(Timeline, TimeInt)>::empty());
        while t < row.timepoint.times.len()
            invariant
                t <= times.len(),
                times == row.timepoint.times@,
                times_temporal(times),
                self.wf(),
                tables == self@.store.tables,
                flag == self.data_store.config.store_insert_ids,
                ({
                    let found = find_row(self@.store, row@, times.take(t as int));
                    &&& found_times@ =~= found.times
                    &&& match (found_cells, found.cells) {
                        (Some(cells), Some(expected)) => cells@ == expected
                            && components_distinct(cells@),
                        (None, None) => true,
                        _ => false,
                    }
                }),
            decreases times.len() - t,
        {
            let (timeline, time) = row.timepoint.times[t];
            proof {
                assert(times.take(t + 1).drop_last() =~= times.take(t as int));
                assert(times.take(t + 1).last() == times[t as int]);
                assert(times[t as int].1.value >= TIME_MIN);
            }
            if let Some(i) = find_table(&self.data_store.tables, row.entity_path_hash, &timeline) {
                proof {
                    lemma_slot_index(tables, flag, row.entity_path_hash, timeline@, i as int);
                    assert(self.data_store.tables@[i as int].table.wf());
                }
                if let Some(cells) = self.data_store.tables[i].table.row_cells(row.row_id, time) {
                    found_times.push((timeline, time));
                    if found_cells.is_none() {
                        found_cells = Some(cells);
                    }
                }
            }
            t += 1;
        }
        assert(times.take(t as int) =~= times);
        (found_times, found_cells)
    }

    /// What is left of a registered row, if anything.
    fn find_stored_row(&self, row: &RowMetadata) -> (r: Option<DataRow>)
        requires
            self.wf(),
            timelines_distinct(row.timepoint.times@),
            times_temporal(row.timepoint.times@),
        ensures
            match (r, stored_row(self@, row@)) {
                (Some(found), Some(expected)) => found@ == expected && found.wf(),
                (None, None) => true,
                _ => false,
            },
    {
        let entity_path = match get_path(&self.entity_path_from_hash, row.entity_path_hash) {
            Some(path) => clone_path(path),
            None => {
                return None;
            },
        };
        if row.timepoint.times.len() == 0 {
            match find_static(&self.data_store.static_tables, row.entity_path_hash) {
                Some(i) => {
                    let cells = self.data_store.static_tables[i].cells_of_row(row.row_id);
                    if cells.len() == 0 {
                        None
                    } else {
                        proof {
                            let slot = self@.store.statics[i as int];
                            assert(crate::store::static_components_distinct(slot.cells));
                            lemma_static_cells_distinct(slot.cells, row.row_id);
                        }
                        let found = DataRow {
                            row_id: row.row_id,
                            timepoint: TimePoint::timeless(),
                            entity_path,
                            cells,
                        };
                        assert(found@.times =~= row@.times);
                        Some(found)
                    }
                },
                None => None,
            }
        } else {
            let (times, cells) = self.find_temporal_row(row);
            match cells {
                Some(cells) => {
                    proof {
                        lemma_find_row_times(self@.store, row@, row.timepoint.times@);
                    }
                    Some(
                        DataRow {
                            row_id: row.row_id,
                            timepoint: TimePoint { times },
                            entity_path,
                            cells,
                        },
                    )
                },
                None => None,
            }
        }
    }

    /// All rows that are left, in the order of their ids.
    pub fn to_rows(&self) -> (r: Vec<DataRow>)
        requires
            self.wf(),
        ensures
            rows_wf(r@),
            row_views(r@) == stored_rows(self@, self@.store.registry),
    {
        let ghost all = self@.store.registry;
        let mut out: Vec<DataRow> = Vec::new();
        let mut i: usize = 0;
        assert(row_views(out@) =~= Seq::<RowView>::empty());
        while i < self.data_store.metadata_registry.registry.len()
            invariant
                i <= self.data_store.metadata_registry.registry@.len(),
                all == self@.store.registry,
                self.wf(),
                rows_wf(out@),
                row_views(out@) == stored_rows(self@, all.take(i as int)),
            decreases self.data_store.metadata_registry.registry@.len() - i,
        {
            proof {
                assert(all.take(i + 1).drop_last() =~= all.take(i as int));
                assert(all.take(i + 1).last() == all[i as int]);
                assert(timelines_distinct(all[i as int].times));
            }
            let ghost before = out@;
            if let Some(row) = self.find_stored_row(&self.data_store.metadata_registry.registry[i]) {
                let ghost view = row@;
                out.push(row);
                assert(row_views(out@) =~= row_views(before).push(view));
            }
            i += 1;
        }
        assert(all.take(i as int) =~= all);
        out
    }

    /// The rows that a selection of times covers, in the order of their ids. Those that are static
    /// always are.
    pub fn rows_to_export(&self, time_filter: Option<(Timeline, ResolvedTimeRange)>) -> (r: Vec<
        DataRow,
    >)
        requires
            self.wf(),
        ensures
            rows_wf(r@),
            row_views(r@) == selected_rows(stored_rows(self@, self@.store.registry), time_filter),
    {
        let rows = self.to_rows();
        let ghost given = rows@;
        let ghost all = row_views(given);
        let mut rest = rows;
        let mut out: Vec<DataRow> = Vec::new();
        let n: usize = rest.len();
        let mut i: usize = 0;
        assert(row_views(out@) =~= Seq::<RowView>::empty());
        while i < n
            invariant
                i <= n,
                n == given.len(),
                all == row_views(given),
                rows_wf(given),
                rest@ == given.skip(i as int),
                rows_wf(out@),
                row_views(out@) == selected_rows(all.take(i as int), time_filter),
            decreases n - i,
        {
            let row = rest.remove(0);
            proof {
                assert(row == given[i as int]);
                assert(given[i as int].wf());
                assert(rest@ =~= given.skip(i + 1));
                assert(all.take(i + 1).drop_last() =~= all.take(i as int));
                assert(all.take(i + 1).last() == row@);
            }
            if is_covered(&row.timepoint, &time_filter) {
                let ghost before = out@;
                let ghost view = row@;
                out.push(row);
                assert(row_views(out@) =~= row_views(before).push(view));
            }
            i += 1;
        }
        assert(all.take(i as int) =~= all);
        out
    }

    /// Makes a clone under a new id.
    ///
    /// The clone is told that it is one. It does not keep the data source: the reason to clone is to
    /// modify the data, and it would be wrong to say that it is still from there.
    pub fn clone_with_new_id(&self, new_id: StoreId) -> (r: Result<EntityDb, WriteError>)
        requires
            self.wf(),
        ensures
            match r {
                Ok(db) => {
                    &&& db.wf()
                    &&& db.data_store.id == new_id
                    &&& db.data_source is None
                    &&& db.last_modified_at == self.last_modified_at
                    &&& match (self.set_store_info, db.set_store_info) {
                        (Some(old), Some(new)) => new.info == (StoreInfo {
                            store_id: new_id,
                            cloned_from: Some(self.data_store.id),
                            ..old.info
                        }),
                        (None, None) => true,
                        _ => false,
                    }
                    &&& db.data_store.config.indexed_bucket_num_rows == 512
                    &&& !db.data_store.config.store_insert_ids
                    &&& rows_added(
                        empty_clone(self.latest_row_id),
                        db.data_store.config,
                        stored_rows(self@, self@.store.registry),
                        db@,
                        None,
                    )
                },
                Err(error) => exists|config: DataStoreConfig, after: DbView|
                    config.indexed_bucket_num_rows == 512 && !config.store_insert_ids
                        && #[trigger] rows_added(
                        empty_clone(self.latest_row_id),
                        config,
                        stored_rows(self@, self@.store.registry),
                        after,
                        Some(error),
                    ),
            },
    {
        let mut new_db = EntityDb::new(new_id.clone());
        new_db.last_modified_at = copy_instant(&self.last_modified_at);
        new_db.latest_row_id = self.latest_row_id;
        if let Some(msg) = &self.set_store_info {
            let mut new_info = msg.info.clone();
            new_info.store_id = new_id;
            new_info.cloned_from = Some(self.data_store.id.clone());
            new_db.set_store_info(SetStoreInfo { row_id: new_row_id(), info: new_info });
        }
        let ghost start = new_db@;
        assert(start =~= empty_clone(self.latest_row_id));
        let rows = self.to_rows();
        match new_db.add_rows(rows) {
            Ok(()) => Ok(new_db),
            Err(error) => Err(error),
        }
    }
}

/// What a clone starts out as.
pub open spec fn empty_clone(latest_row_id: Option<RowId>) -> DbView {
    DbView { latest_row_id, ..empty_db() }
}

/// The same reading of the clock.
///
/// Calls `web_time::Instant::clone`, which copies it.
#[verifier::external_body]
fn copy_instant(instant: &web_time::Instant) -> (r: web_time::Instant)
    ensures
        r == *instant,
{
    instant.clone()
}

} // verus!

//! An in-memory database of entities.
use crate::entries::{entry_of, Entry};
use crate::gc::clock_now;
use crate::names::{
    ComponentName, RowId, StoreId, StoreKind, TimeInt, Timeline,
};
use crate::path::{
    clone_path, entity_path_hash, entity_path_parts, hash_of, path_before, path_hash, path_len,
    path_prefix, settled_hash,
};
use crate::paths::{get_path, insert_path, is_value, new_path_map, parts_differ, sorted_paths, PathMap};
use crate::row::{DataCell, StoreEvent, StoreGeneration};
use crate::stats::tables_rows;
use crate::store::{
    empty_store, latest_entry, DataStore, DataStoreConfig, LatestAtQuery, StoreView,
};
use crate::times::{histogram_index, HistogramView, TimeHistogram, TimesPerTimeline};
use crate::tree::{
    component_index, find_component_info, leaf, static_cells_below, subtree_at, EntityTree,
    TreeView,
};
use re_log_types::EntityPath;
use vstd::prelude::*;

verus! {

/// `re_smart_channel::SmartChannelSource`: where data comes from.
#[verifier::external_type_specification]
#[verifier::external_body]
pub struct ExSmartChannelSource(re_smart_channel::SmartChannelSource);

/// `re_log_types::StoreSource`: what made the data of a store.
#[verifier::external_type_specification]
#[verifier::external_body]
pub struct ExStoreSource(re_log_types::StoreSource);

/// The same source.
///
/// Calls `StoreSource::clone`, which is derived.
#[verifier::external_body]
fn clone_source(source: &re_log_types::StoreSource) -> (r: re_log_types::StoreSource)
    ensures
        r == *source,
{
    source.clone()
}

/// The application that logged something.
#[derive(Debug)]
pub struct ApplicationId {
    pub id: String,
}

impl Clone for ApplicationId {
    fn clone(&self) -> (r: ApplicationId)
        ensures
            r == *self,
    {
        ApplicationId { id: self.id.clone() }
    }
}

/// What is known of a store apart from its data.
#[derive(Debug)]
pub struct StoreInfo {
    pub application_id: ApplicationId,
    pub store_id: StoreId,
    /// The store that this one was cloned from, if it was.
    pub cloned_from: Option<StoreId>,
    pub is_official_example: bool,
    /// When the recording was started, in nanoseconds since the epoch.
    pub started: i64,
    pub store_source: re_log_types::StoreSource,
}

impl Clone for StoreInfo {
    fn clone(&self) -> (r: StoreInfo)
        ensures
            r == *self,
    {
        StoreInfo {
            application_id: self.application_id.clone(),
            store_id: self.store_id.clone(),
            cloned_from: match &self.cloned_from {
                Some(id) => Some(id.clone()),
                None => None,
            },
            is_official_example: self.is_official_example,
            started: self.started,
            store_source: clone_source(&self.store_source),
        }
    }
}

/// The message that tells what a store is.
#[derive(Debug)]
pub struct SetStoreInfo {
    pub row_id: RowId,
    pub info: StoreInfo,
}

impl Clone for SetStoreInfo {
    fn clone(&self) -> (r: SetStoreInfo)
        ensures
            r == *self,
    {
        SetStoreInfo { row_id: self.row_id, info: self.info.clone() }
    }
}

/// How long the rows of a store take to get here.
#[derive(Debug)]
pub struct IngestionStatistics {
    pub store_id: StoreId,
    /// How long the latest rows took to get here, and when they came in.
    pub samples: Vec<LatencySample>,
}

/// A component of an entity.
#[derive(Debug)]
pub struct ComponentPath {
    pub entity_path: EntityPath,
    pub component_name: ComponentName,
}

/// An in-memory database of entities.
#[derive(Debug)]
pub struct EntityDb {
    /// Set by whoever made this database. A clone has none.
    pub data_source: Option<re_smart_channel::SmartChannelSource>,
    pub set_store_info: Option<SetStoreInfo>,
    /// When data was last added, by this machine's clock.
    pub last_modified_at: web_time::Instant,
    /// The highest id that any row in the store has, which stands for the last edit. Deletions do
    /// not count.
    pub latest_row_id: Option<RowId>,
    /// In many places only hashes are kept: this is the way back.
    pub entity_path_from_hash: PathMap,
    /// Which times there are on each timeline.
    pub times_per_timeline: TimesPerTimeline,
    /// How many cells there are at each time of each timeline.
    pub time_histograms: TimesPerTimeline,
    pub tree: EntityTree,
    pub data_store: DataStore,
    pub stats: IngestionStatistics,
}

/// What contracts know of the data in a database.
#[verifier::ext_equal]
pub struct DbView {
    pub latest_row_id: Option<RowId>,
    pub paths: Map<u64, EntityPath>,
    pub times: Seq<HistogramView>,
    pub histograms: Seq<HistogramView>,
    pub tree: TreeView,
    pub store: StoreView,
    pub samples: Seq<LatencySample>,
}

impl View for EntityDb {
    type V = DbView;

    open spec fn view(&self) -> DbView {
        DbView {
            latest_row_id: self.latest_row_id,
            paths: self.entity_path_from_hash@,
            times: self.times_per_timeline@,
            histograms: self.time_histograms@,
            tree: self.tree@,
            store: self.data_store@,
            samples: self.stats.samples@,
        }
    }
}

/// The database without any data.
pub open spec fn empty_db() -> DbView {
    DbView {
        latest_row_id: None,
        paths: Map::empty(),
        times: Seq::empty(),
        histograms: Seq::empty(),
        tree: leaf(Seq::empty()),
        store: empty_store(),
        samples: Seq::empty(),
    }
}

/// What is found of a component that is expected to have one instance: nothing if it has none or
/// several.
pub open spec fn latest_mono(
    store: StoreView,
    query: LatestAtQuery,
    hash: u64,
    component: Seq<char>,
) -> Option<Entry> {
    match latest_entry(store, query, hash, component) {
        Some(entry) => if entry.cell.num_instances == 1 {
            Some(entry)
        } else {
            None
        },
        None => None,
    }
}

/// Whether nothing is found of a component at the entity that some parts lead to.
pub open spec fn nothing_at(
    store: StoreView,
    query: LatestAtQuery,
    parts: Seq<Seq<char>>,
    component: Seq<char>,
) -> bool {
    forall|path: EntityPath| #[trigger]
        entity_path_parts(path) == parts ==> latest_mono(
            store,
            query,
            entity_path_hash(path),
            component,
        ) is None
}

/// Whether paths are kept under their own hashes, each of which its parts settle.
pub open spec fn paths_valid(paths: Map<u64, EntityPath>) -> bool {
    forall|hash: u64| #[trigger]
        paths.contains_key(hash) ==> entity_path_hash(paths[hash]) == hash && hash_of(
            entity_path_parts(paths[hash]),
        ) == hash
}

proof fn lemma_parts_differ(paths: Map<u64, EntityPath>)
    requires
        paths_valid(paths),
    ensures
        parts_differ(paths),
{
    assert forall|a: u64, b: u64|
        #![trigger paths[a], paths[b]]
        paths.contains_key(a) && paths.contains_key(b) && a != b implies entity_path_parts(paths[a])
        != entity_path_parts(paths[b]) by {
        assert(hash_of(entity_path_parts(paths[a])) == a);
        assert(hash_of(entity_path_parts(paths[b])) == b);
    }
}

impl EntityDb {
    pub open spec fn wf(self) -> bool {
        &&& self.data_store.wf()
        &&& self.tree.wf()
        &&& self.stats.store_id == self.data_store.id
        &&& paths_valid(self.entity_path_from_hash@)
    }

    /// A database without any data.
    pub fn new(store_id: StoreId) -> (r: EntityDb)
        ensures
            r.wf(),
            r.data_source is None,
            r.set_store_info is None,
            r.data_store.id == store_id,
            r.data_store.config.indexed_bucket_num_rows == 512,
            !r.data_store.config.store_insert_ids,
            r@ == empty_db(),
    {
        let data_store = DataStore::new(store_id.clone(), DataStoreConfig::default());
        let r = EntityDb {
            data_source: None,
            set_store_info: None,
            last_modified_at: clock_now(),
            latest_row_id: None,
            entity_path_from_hash: new_path_map(),
            times_per_timeline: TimesPerTimeline::new(),
            time_histograms: TimesPerTimeline::new(),
            tree: EntityTree::root(),
            data_store,
            stats: IngestionStatistics::new(store_id),
        };
        assert(r@.paths =~= Map::empty());
        assert(r@ =~= empty_db());
        r
    }

    pub fn tree(&self) -> (r: &EntityTree)
        ensures
            *r == self.tree,
    {
        &self.tree
    }

    pub fn data_store(&self) -> (r: &DataStore)
        ensures
            *r == self.data_store,
    {
        &self.data_store
    }

    pub fn store(&self) -> (r: &DataStore)
        ensures
            *r == self.data_store,
    {
        &self.data_store
    }

    pub fn store_info_msg(&self) -> (r: Option<&SetStoreInfo>)
        ensures
            match r {
                Some(msg) => self.set_store_info == Some(*msg),
                None => self.set_store_info is None,
            },
    {
        self.set_store_info.as_ref()
    }

    pub fn store_info(&self) -> (r: Option<&StoreInfo>)
        ensures
            match (r, self.set_store_info) {
                (Some(info), Some(msg)) => *info == msg.info,
                (None, None) => true,
                _ => false,
            },
    {
        match &self.set_store_info {
            Some(msg) => Some(&msg.info),
            None => None,
        }
    }

    pub fn app_id(&self) -> (r: Option<&ApplicationId>)
        ensures
            match (r, self.set_store_info) {
                (Some(id), Some(msg)) => *id == msg.info.application_id,
                (None, None) => true,
                _ => false,
            },
    {
        match &self.set_store_info {
            Some(msg) => Some(&msg.info.application_id),
            None => None,
        }
    }

    pub fn store_id(&self) -> (r: &StoreId)
        ensures
            *r == self.data_store.id,
    {
        self.data_store.id()
    }

    pub fn store_kind(&self) -> (r: StoreKind)
        ensures
            r == self.data_store.id.kind,
    {
        self.data_store.id.kind
    }

    /// If this database is a clone, the store that it was cloned from.
    ///
    /// A clone always gets a new id of its own.
    pub fn cloned_from(&self) -> (r: Option<&StoreId>)
        ensures
            match (r, self.set_store_info) {
                (Some(id), Some(msg)) => msg.info.cloned_from == Some(*id),
                (None, Some(msg)) => msg.info.cloned_from is None,
                (None, None) => true,
                _ => false,
            },
    {
        match &self.set_store_info {
            Some(msg) => msg.info.cloned_from.as_ref(),
            None => None,
        }
    }

    /// All timelines that anything was ever logged on.
    pub fn timelines(&self) -> (r: Vec<Timeline>)
        ensures
            r@ == Seq::new(self@.times.len(), |i: int| self@.times[i].timeline),
    {
        let mut out: Vec<Timeline> = Vec::new();
        let mut i: usize = 0;
        while i < self.times_per_timeline.timelines.len()
            invariant
                i <= self.times_per_timeline.timelines@.len(),
                out@ == Seq::new(i as nat, |i: int| self@.times[i].timeline),
            decreases self.times_per_timeline.timelines@.len() - i,
        {
            out.push(self.times_per_timeline.timelines[i].timeline);
            i += 1;
            assert(out@ =~= Seq::new(i as nat, |i: int| self@.times[i].timeline));
        }
        out
    }

    pub fn times_per_timeline(&self) -> (r: &TimesPerTimeline)
        ensures
            *r == self.times_per_timeline,
    {
        &self.times_per_timeline
    }

    /// How many cells of any entity there are at each time of a timeline.
    pub fn time_histogram(&self, timeline: &Timeline) -> (r: Option<&TimeHistogram>)
        ensures
            match (r, histogram_index(self@.histograms, *timeline)) {
                (Some(histogram), Some(i)) => histogram@ == self@.histograms[i],
                (None, None) => true,
                _ => false,
            },
    {
        match self.time_histograms.position(timeline) {
            Some(i) => Some(&self.time_histograms.timelines[i]),
            None => None,
        }
    }

    /// How many static cells of any entity there are.
    pub fn num_static_messages(&self) -> (r: u64)
        ensures
            r == static_cells_below(self.tree),
    {
        self.tree.num_static_messages_recursive()
    }

    /// Whether a component is static; nothing if the entity does not have it.
    pub fn is_component_static(&self, component_path: &ComponentPath) -> (r: Option<bool>)
        requires
            self.wf(),
        ensures
            r == match subtree_at(self@.tree, entity_path_parts(component_path.entity_path), 0) {
                Some(node) => match component_index(
                    node.components,
                    component_path.component_name@,
                ) {
                    Some(i) => Some(node.components[i].num_static > 0),
                    None => None,
                },
                None => None,
            },
    {
        match self.tree.subtree(&component_path.entity_path) {
            Some(node) => {
                proof {
                    crate::tree::lemma_tree_view(*node);
                }
                match find_component_info(&node.components, &component_path.component_name) {
                    Some(i) => Some(node.components[i].num_static > 0),
                    None => None,
                }
            },
            None => None,
        }
    }

    /// How many rows there are, static and temporal.
    pub fn num_rows(&self) -> (r: u128)
        requires
            self.wf(),
        ensures
            r == self@.store.statics.len() + tables_rows(self@.store.tables),
    {
        let temporal: u128 = self.data_store.num_temporal_rows();
        self.data_store.num_static_rows() + temporal
    }

    /// Which state the data is in: whenever it is modified, this changes.
    pub fn generation(&self) -> (r: StoreGeneration)
        ensures
            r == (StoreGeneration {
                insert_id: self.data_store.insert_id,
                gc_id: self.data_store.gc_id,
            }),
    {
        self.data_store.generation()
    }

    pub fn last_modified_at(&self) -> (r: &web_time::Instant)
        ensures
            *r == self.last_modified_at,
    {
        &self.last_modified_at
    }

    /// The highest id that any row in the store has, which stands for the last edit. Deletions do
    /// not count.
    pub fn latest_row_id(&self) -> (r: Option<RowId>)
        ensures
            r == self.latest_row_id,
    {
        self.latest_row_id
    }

    /// Whether nothing at all is known, neither data nor what the store is.
    pub fn is_empty(&self) -> (r: bool)
        requires
            self.wf(),
        ensures
            r == (self.set_store_info is None && self@.store.statics.len() + tables_rows(
                self@.store.tables,
            ) == 0),
    {
        self.set_store_info.is_none() && self.num_rows() == 0
    }

    /// A sorted list of all the paths that anything was logged to.
    pub fn entity_paths(&self) -> (r: Vec<&EntityPath>)
        requires
            self.wf(),
        ensures
            r@.len() == self@.paths.len(),
            forall|hash: u64| #[trigger]
                self@.paths.contains_key(hash) ==> exists|i: int|
                    0 <= i < r@.len() && *(#[trigger] r@[i]) == self@.paths[hash],
            forall|i: int| 0 <= i < r@.len() ==> is_value(self@.paths, *(#[trigger] r@[i])),
            forall|i: int, j: int|
                #![trigger r@[i], r@[j]]
                0 <= i < j < r@.len() ==> path_before(
                    entity_path_parts(*r@[i]),
                    entity_path_parts(*r@[j]),
                ),
    {
        proof {
            lemma_parts_differ(self@.paths);
        }
        sorted_paths(&self.entity_path_from_hash)
    }

    pub fn ingestion_stats(&self) -> (r: &IngestionStatistics)
        ensures
            *r == self.stats,
    {
        &self.stats
    }

    /// The path with a given hash, if anything was logged to it.
    pub fn entity_path_from_hash(&self, entity_path_hash: u64) -> (r: Option<&EntityPath>)
        ensures
            match r {
                Some(path) => self@.paths.contains_key(entity_path_hash) && *path
                    == self@.paths[entity_path_hash],
                None => !self@.paths.contains_key(entity_path_hash),
            },
    {
        get_path(&self.entity_path_from_hash, entity_path_hash)
    }

    /// Whether an entity exists. Those higher up in the hierarchy do as well.
    pub fn is_known_entity(&self, entity_path: &EntityPath) -> (r: bool)
        requires
            self.wf(),
        ensures
            r == (subtree_at(self@.tree, entity_path_parts(*entity_path), 0) is Some),
    {
        self.tree.subtree(entity_path).is_some()
    }

    /// Whether anything was logged to this very entity: if something was logged to `world/points`,
    /// then that is a logged entity, but `world` is not.
    pub fn is_logged_entity(&self, entity_path: &EntityPath) -> (r: bool)
        ensures
            r == self@.paths.contains_key(entity_path_hash(*entity_path)),
    {
        get_path(&self.entity_path_from_hash, path_hash(entity_path)).is_some()
    }

    /// The latest cell of a component that has one instance.
    pub fn latest_at_component(
        &self,
        entity_path: &EntityPath,
        query: &LatestAtQuery,
        component: &ComponentName,
    ) -> (r: Option<(TimeInt, RowId, DataCell)>)
        requires
            self.wf(),
        ensures
            entry_of(r) == latest_mono(
                self@.store,
                *query,
                entity_path_hash(*entity_path),
                component@,
            ),
    {
        match self.data_store.latest_at(query, entity_path, component) {
            Some((time, row_id, cell)) => if cell.num_instances == 1 {
                Some((time, row_id, cell))
            } else {
                None
            },
            None => None,
        }
    }

    /// The latest cell of a component that has one instance.
    pub fn latest_at_component_quiet(
        &self,
        entity_path: &EntityPath,
        query: &LatestAtQuery,
        component: &ComponentName,
    ) -> (r: Option<(TimeInt, RowId, DataCell)>)
        requires
            self.wf(),
        ensures
            entry_of(r) == latest_mono(
                self@.store,
                *query,
                entity_path_hash(*entity_path),
                component@,
            ),
    {
        self.latest_at_component(entity_path, query, component)
    }

    /// The latest cell of a component that has one instance, at the entity itself or at the closest
    /// one above it that has it.
    pub fn latest_at_component_at_closest_ancestor(
        &self,
        entity_path: &EntityPath,
        query: &LatestAtQuery,
        component: &ComponentName,
    ) -> (r: Option<(EntityPath, (TimeInt, RowId, DataCell))>)
        requires
            self.wf(),
        ensures
            ({
                let parts = entity_path_parts(*entity_path);
                match r {
                    Some((path, found)) => exists|n: int|
                        0 <= n <= parts.len() && #[trigger] parts.take(n) == entity_path_parts(path)
                            && entry_of(Some(found)) == latest_mono(
                            self@.store,
                            *query,
                            entity_path_hash(path),
                            component@,
                        ) && forall|m: int|
                            n < m <= parts.len() ==> nothing_at(
                                self@.store,
                                *query,
                                #[trigger] parts.take(m),
                                component@,
                            ),
                    None => forall|m: int|
                        0 <= m <= parts.len() ==> nothing_at(
                            self@.store,
                            *query,
                            #[trigger] parts.take(m),
                            component@,
                        ),
                }
            }),
    {
        let ghost parts = entity_path_parts(*entity_path);
        let mut n: usize = path_len(entity_path);
        loop
            invariant
                self.wf(),
                parts == entity_path_parts(*entity_path),
                n <= parts.len(),
                forall|m: int|
                    n < m <= parts.len() ==> nothing_at(
                        self@.store,
                        *query,
                        #[trigger] parts.take(m),
                        component@,
                    ),
            decreases n,
        {
            let path = path_prefix(entity_path, n);
            path_hash(&path);
            if let Some(found) = self.latest_at_component(&path, query, component) {
                assert(parts.take(n as int) == entity_path_parts(path));
                return Some((path, found));
            }
            assert(nothing_at(self@.store, *query, parts.take(n as int), component@));
            if n == 0 {
                return None;
            }
            n -= 1;
        }
    }

    pub fn set_store_info(&mut self, store_info: SetStoreInfo)
        requires
            old(self).wf(),
        ensures
            final(self).wf(),
            final(self)@ == old(self)@,
            final(self).set_store_info == Some(store_info),
            final(self).data_store == old(self).data_store,
            final(self).data_source == old(self).data_source,
            final(self).last_modified_at == old(self).last_modified_at,
    {
        self.set_store_info = Some(store_info);
    }

    /// Key for sorting recordings: by application, and then by when they were started.
    pub fn sort_key(&self) -> (r: Option<(&str, i64)>)
        ensures
            match (r, self.set_store_info) {
                (Some((id, started)), Some(msg)) => id@ == msg.info.application_id.id@ && started
                    == msg.info.started,
                (None, None) => true,
                _ => false,
            },
    {
        match &self.set_store_info {
            Some(msg) => Some((msg.info.application_id.id.as_str(), msg.info.started)),
            None => None,
        }
    }

    /// Makes it possible to get from the hash of a path back to the path.
    pub(crate) fn register_entity_path(&mut self, entity_path: &EntityPath)
        requires
            old(self).wf(),
        ensures
            final(self).wf(),
            final(self)@ == (DbView {
                paths: path_registered(old(self)@.paths, *entity_path),
                ..old(self)@
            }),
            final(self).data_store == old(self).data_store,
            final(self).set_store_info == old(self).set_store_info,
            final(self).data_source == old(self).data_source,
            final(self).last_modified_at == old(self).last_modified_at,
            final(self).tree == old(self).tree,
    {
        let hash: u64 = settled_hash(entity_path);
        if get_path(&self.entity_path_from_hash, hash).is_none() {
            insert_path(&mut self.entity_path_from_hash, hash, clone_path(entity_path));
        }
    }
}

/// The known paths once one more was logged to; the first one with a given hash stays.
pub open spec fn path_registered(paths: Map<u64, EntityPath>, path: EntityPath) -> Map<
    u64,
    EntityPath,
> {
    if paths.contains_key(entity_path_hash(path)) {
        paths
    } else {
        paths.insert(entity_path_hash(path), path)
    }
}

/// How many samples of the latency are kept. There is no need to spend much memory on this: enough
/// for a good average will do.
pub const MAX_LATENCY_SAMPLES: usize = 1024;

/// When a row came in, and how long before that it was logged.
#[derive(Clone, Copy, Debug, PartialEq, Eq, Structural)]
pub struct LatencySample {
    /// In nanoseconds since the epoch, by this machine's clock.
    pub arrived_nanos: u64,
    pub nanos_since_log: u64,
}

/// The sample that a row makes, given what the clock shows; none if the clock shows nothing, or if
/// that of whoever logged the row is ahead.
pub open spec fn sample_of(now: Option<u64>, row_id: RowId) -> Option<LatencySample> {
    match now {
        Some(now) => if now < row_id.nanos() {
            None
        } else {
            Some(
                LatencySample {
                    arrived_nanos: now,
                    nanos_since_log: (now - row_id.nanos()) as u64,
                },
            )
        },
        None => None,
    }
}

/// Samples with one more; the oldest go when there are too many.
pub open spec fn samples_with(samples: Seq<LatencySample>, now: Option<u64>, row_id: RowId) -> Seq<
    LatencySample,
> {
    match sample_of(now, row_id) {
        Some(sample) => {
            let all = samples.push(sample);
            if all.len() > MAX_LATENCY_SAMPLES {
                all.skip(all.len() - MAX_LATENCY_SAMPLES)
            } else {
                all
            }
        },
        None => samples,
    }
}

/// Samples after some events, of which those of a store count, given what the clock shows at each.
pub open spec fn samples_after(
    samples: Seq<LatencySample>,
    events: Seq<StoreEvent>,
    store_id: StoreId,
    readings: Seq<Option<u64>>,
) -> Seq<LatencySample>
    decreases events.len(),
{
    if events.len() == 0 {
        samples
    } else {
        let rest = samples_after(samples, events.drop_last(), store_id, readings);
        if events.last().store_id.same(store_id) {
            samples_with(rest, readings[events.len() - 1], events.last().diff.row_id)
        } else {
            rest
        }
    }
}

proof fn lemma_samples_after_prefix(
    samples: Seq<LatencySample>,
    events: Seq<StoreEvent>,
    store_id: StoreId,
    a: Seq<Option<u64>>,
    b: Seq<Option<u64>>,
)
    requires
        events.len() <= a.len(),
        events.len() <= b.len(),
        forall|i: int| 0 <= i < events.len() ==> a[i] == b[i],
    ensures
        samples_after(samples, events, store_id, a) == samples_after(samples, events, store_id, b),
    decreases events.len(),
{
    if events.len() > 0 {
        lemma_samples_after_prefix(samples, events.drop_last(), store_id, a, b);
    }
}

/// What the clock on the wall shows, in nanoseconds since the epoch.
///
/// Calls `SystemTime::elapsed` of `web_time` on the epoch. Nothing is promised of the result.
#[verifier::external_body]
fn nanos_since_epoch() -> (r: Option<u64>) {
    web_time::SystemTime::UNIX_EPOCH.elapsed().ok().map(|elapsed| elapsed.as_nanos() as u64)
}

impl IngestionStatistics {
    pub fn new(store_id: StoreId) -> (r: IngestionStatistics)
        ensures
            r.store_id == store_id,
            r.samples@ == Seq::<LatencySample>::empty(),
    {
        IngestionStatistics { store_id, samples: Vec::new() }
    }

    /// Takes note of how long it took a row to get here, given what the clock shows.
    ///
    /// This only makes sense if the clocks are very good, i.e. if the recording was made on the
    /// same machine.
    pub fn on_new_row_id(&mut self, now: Option<u64>, row_id: RowId)
        ensures
            final(self).store_id == old(self).store_id,
            final(self).samples@ == samples_with(old(self).samples@, now, row_id),
    {
        let now: u64 = match now {
            Some(now) => now,
            None => {
                return;
            },
        };
        match now.checked_sub(row_id.nanoseconds_since_epoch()) {
            Some(nanos_since_log) => {
                self.samples.push(LatencySample { arrived_nanos: now, nanos_since_log });
                let ghost all = self.samples@;
                let ghost sample = all.last();
                assert(all =~= old(self).samples@.push(sample));
                assert(self.samples@ =~= all.skip(0));
                let ghost mut gone: int = 0;
                while self.samples.len() > MAX_LATENCY_SAMPLES
                    invariant
                        0 <= gone <= all.len(),
                        self.samples@ == all.skip(gone),
                        gone > 0 ==> gone <= all.len() - MAX_LATENCY_SAMPLES,
                        self.store_id == old(self).store_id,
                    decreases self.samples@.len(),
                {
                    self.samples.remove(0);
                    proof {
                        gone = gone + 1;
                        assert(self.samples@ =~= all.skip(gone));
                    }
                }
                assert(all.skip(0) =~= all);
            },
            None => {},
        }
    }

    /// Takes note of the rows in those events that belong to this store.
    pub fn on_events(&mut self, events: &Vec<StoreEvent>)
        ensures
            final(self).store_id == old(self).store_id,
            exists|readings: Seq<Option<u64>>|
                final(self).samples@ == #[trigger] samples_after(
                    old(self).samples@,
                    events@,
                    old(self).store_id,
                    readings,
                ),
    {
        let ghost mut readings: Seq<Option<u64>> = Seq::empty();
        let mut i: usize = 0;
        while i < events.len()
            invariant
                i <= events@.len(),
                self.store_id == old(self).store_id,
                readings.len() == i,
                self.samples@ == samples_after(
                    old(self).samples@,
                    events@.take(i as int),
                    old(self).store_id,
                    readings,
                ),
            decreases events@.len() - i,
        {
            assert(events@.take(i + 1).drop_last() =~= events@.take(i as int));
            let mut now: Option<u64> = None;
            if events[i].store_id.is(&self.store_id) {
                now = nanos_since_epoch();
                self.on_new_row_id(now, events[i].diff.row_id);
            }
            proof {
                let longer = readings.push(now);
                lemma_samples_after_prefix(
                    old(self).samples@,
                    events@.take(i as int),
                    old(self).store_id,
                    readings,
                    longer,
                );
                readings = longer;
            }
            i += 1;
        }
        assert(events@.take(i as int) =~= events@);
    }

    /// Hands over the samples that nobody has asked for yet.
    pub fn take_samples(&mut self) -> (r: Vec<LatencySample>)
        ensures
            r@ == old(self).samples@,
            final(self).samples@ == Seq::<LatencySample>::empty(),
            final(self).store_id == old(self).store_id,
    {
        let mut out: Vec<LatencySample> = Vec::new();
        out.append(&mut self.samples);
        out
    }
}

/// What there is of samples once some rows came in one after the other, each at the time that a
/// clock showed, if it showed any.
pub open spec fn samples_in_turn(
    samples: Seq<LatencySample>,
    rows: Seq<(Option<u64>, RowId)>,
) -> Seq<LatencySample>
    decreases rows.len(),
{
    if rows.len() == 0 {
        samples
    } else {
        samples_with(
            samples_in_turn(samples, rows.drop_last()),
            rows.last().0,
            rows.last().1,
        )
    }
}

/// Whether a row makes a sample: the clock shows a time, and not one before the row was logged.
pub open spec fn makes_sample(row: (Option<u64>, RowId)) -> bool {
    row.0 is Some && row.0->0 >= row.1.nanos()
}

/// The sample that a row makes.
pub open spec fn made_sample(row: (Option<u64>, RowId)) -> LatencySample {
    LatencySample {
        arrived_nanos: row.0->0,
        nanos_since_log: (row.0->0 - row.1.nanos()) as u64,
    }
}

/// Law: the samples that are kept are the last of all that rows made, a thousand and twenty-four at
/// most, in the order in which the rows came in.
pub proof fn law_the_last_samples_are_kept(
    samples: Seq<LatencySample>,
    rows: Seq<(Option<u64>, RowId)>,
)
    requires
        samples.len() <= 1024,
    ensures
        ({
            let all = samples + rows.filter(
                |row: (Option<u64>, RowId)| makes_sample(row),
            ).map_values(|row: (Option<u64>, RowId)| made_sample(row));
            samples_in_turn(samples, rows) == if all.len() <= 1024 {
                all
            } else {
                all.skip(all.len() - 1024)
            }
        }),
    decreases rows.len(),
{
    reveal(Seq::filter);
    let made = |rows: Seq<(Option<u64>, RowId)>|
        rows.filter(|row: (Option<u64>, RowId)| makes_sample(row)).map_values(
            |row: (Option<u64>, RowId)| made_sample(row),
        );
    let all = samples + made(rows);
    if rows.len() == 0 {
        assert(all =~= samples);
    } else {
        let init = rows.drop_last();
        let row = rows.last();
        law_the_last_samples_are_kept(samples, init);
        let before = samples + made(init);
        if makes_sample(row) {
            assert(all =~= before.push(made_sample(row)));
            assert(sample_of(row.0, row.1) == Some(made_sample(row)));
        } else {
            assert(all =~= before);
            assert(sample_of(row.0, row.1) is None);
        }
        assert(samples_in_turn(samples, rows) =~= if all.len() <= 1024 {
            all
        } else {
            all.skip(all.len() - 1024)
        });
    }
}

} // verus!

//! How much a store holds.
use crate::store::{
    slots, static_slots, DataStore, StaticCell, StaticSlot, StaticTable, StoreTable, StoreView,
    TableSlot,
};
use vstd::prelude::*;

verus! {

/// A number of rows, and what they take up.
#[derive(Clone, Copy, Debug, PartialEq, Eq, Structural)]
pub struct DataStoreRowStats {
    pub num_rows: u128,
    pub num_bytes: u128,
}

/// How much each part of a store holds.
#[derive(Clone, Copy, Debug, PartialEq, Eq, Structural)]
pub struct DataStoreStats {
    pub metadata_registry: DataStoreRowStats,
    pub static_tables: DataStoreRowStats,
    pub temporal: DataStoreRowStats,
    pub total: DataStoreRowStats,
}

/// How many rows tables count.
pub open spec fn tables_rows(tables: Seq<TableSlot>) -> int
    decreases tables.len(),
{
    if tables.len() == 0 {
        0
    } else {
        tables_rows(tables.drop_last()) + tables.last().table.num_rows
    }
}

/// What tables take up, in bytes.
pub open spec fn tables_size(tables: Seq<TableSlot>) -> int
    decreases tables.len(),
{
    if tables.len() == 0 {
        0
    } else {
        tables_size(tables.drop_last()) + tables.last().table.size()
    }
}

/// What static cells take up, in bytes.
pub open spec fn static_cells_size(cells: Seq<StaticCell>) -> int
    decreases cells.len(),
{
    if cells.len() == 0 {
        0
    } else {
        static_cells_size(cells.drop_last()) + cells.last().cell.size_bytes
    }
}

/// What the static cells of all entities take up, in bytes, as far as it can be counted.
pub open spec fn statics_size(statics: Seq<StaticSlot>) -> int
    decreases statics.len(),
{
    if statics.len() == 0 {
        0
    } else {
        capped(statics_size(statics.drop_last()) + static_cells_size(statics.last().cells))
    }
}

/// A number, or the largest that can be counted to if it is larger than that.
pub open spec fn capped(n: int) -> int {
    if n > u128::MAX {
        u128::MAX as int
    } else {
        n
    }
}

/// How much a store holds.
pub open spec fn stats_of(store: StoreView) -> DataStoreStats {
    let metadata_registry = DataStoreRowStats {
        num_rows: store.registry.len() as u128,
        num_bytes: store.heap_size as u128,
    };
    // A static table only ever contains a single row.
    let static_tables = DataStoreRowStats {
        num_rows: store.statics.len() as u128,
        num_bytes: statics_size(store.statics) as u128,
    };
    let temporal = DataStoreRowStats {
        num_rows: tables_rows(store.tables) as u128,
        num_bytes: tables_size(store.tables) as u128,
    };
    DataStoreStats {
        metadata_registry,
        static_tables,
        temporal,
        total: DataStoreRowStats {
            num_rows: capped(static_tables.num_rows + temporal.num_rows) as u128,
            num_bytes: capped(
                metadata_registry.num_bytes + static_tables.num_bytes + temporal.num_bytes,
            ) as u128,
        },
    }
}

/// How much less one is than another.
pub open spec fn row_stats_minus(a: DataStoreRowStats, b: DataStoreRowStats) -> DataStoreRowStats {
    DataStoreRowStats {
        num_rows: if a.num_rows >= b.num_rows {
            (a.num_rows - b.num_rows) as u128
        } else {
            0
        },
        num_bytes: if a.num_bytes >= b.num_bytes {
            (a.num_bytes - b.num_bytes) as u128
        } else {
            0
        },
    }
}

pub open spec fn stats_minus(a: DataStoreStats, b: DataStoreStats) -> DataStoreStats {
    DataStoreStats {
        metadata_registry: row_stats_minus(a.metadata_registry, b.metadata_registry),
        static_tables: row_stats_minus(a.static_tables, b.static_tables),
        temporal: row_stats_minus(a.temporal, b.temporal),
        total: row_stats_minus(a.total, b.total),
    }
}

/// The sum, or the largest number there is if it is larger than that.
fn capped_sum(a: u128, b: u128) -> (r: u128)
    ensures
        r == capped(a + b),
{
    match a.checked_add(b) {
        Some(sum) => sum,
        None => 0xffff_ffff_ffff_ffff_ffff_ffff_ffff_ffff,
    }
}

impl DataStoreRowStats {
    pub fn minus(&self, other: &DataStoreRowStats) -> (r: DataStoreRowStats)
        ensures
            r == row_stats_minus(*self, *other),
    {
        DataStoreRowStats {
            num_rows: if self.num_rows >= other.num_rows {
                self.num_rows - other.num_rows
            } else {
                0
            },
            num_bytes: if self.num_bytes >= other.num_bytes {
                self.num_bytes - other.num_bytes
            } else {
                0
            },
        }
    }
}

impl DataStoreStats {
    pub fn minus(&self, other: &DataStoreStats) -> (r: DataStoreStats)
        ensures
            r == stats_minus(*self, *other),
    {
        DataStoreStats {
            metadata_registry: self.metadata_registry.minus(&other.metadata_registry),
            static_tables: self.static_tables.minus(&other.static_tables),
            temporal: self.temporal.minus(&other.temporal),
            total: self.total.minus(&other.total),
        }
    }

    pub fn from_store(store: &DataStore) -> (r: DataStoreStats)
        requires
            store.wf(),
        ensures
            r == stats_of(store@),
    {
        let metadata_registry = DataStoreRowStats {
            num_rows: store.metadata_registry.registry.len() as u128,
            num_bytes: store.metadata_registry.heap_size_bytes as u128,
        };
        let static_tables = DataStoreRowStats {
            num_rows: store.static_tables.len() as u128,
            num_bytes: count_statics(&store.static_tables),
        };
        let (num_rows, num_bytes) = count_tables(&store.tables);
        let temporal = DataStoreRowStats { num_rows, num_bytes };
        let first: u128 = capped_sum(static_tables.num_bytes, temporal.num_bytes);
        DataStoreStats {
            metadata_registry,
            static_tables,
            temporal,
            total: DataStoreRowStats {
                num_rows: capped_sum(static_tables.num_rows, temporal.num_rows),
                num_bytes: capped_sum(metadata_registry.num_bytes, first),
            },
        }
    }

    /// How many rows there are in all, and how many bytes they take up.
    pub fn total_rows_and_bytes(&self) -> (r: (u128, u128))
        ensures
            r == (self.total.num_rows, self.total.num_bytes),
    {
        (self.total.num_rows, self.total.num_bytes)
    }
}

fn count_tables(tables: &Vec<StoreTable>) -> (r: (u128, u128))
    requires
        forall|i: int| 0 <= i < tables@.len() ==> (#[trigger] tables@[i]).table.wf(),
    ensures
        r.0 == tables_rows(slots(tables@)),
        r.1 == tables_size(slots(tables@)),
        r.0 <= 0xffff_ffff_ffff_ffff * 0xffff_ffff_ffff_ffff,
{
    let ghost all = slots(tables@);
    let mut num_rows: u128 = 0;
    let mut num_bytes: u128 = 0;
    let mut i: usize = 0;
    while i < tables.len()
        invariant
            i <= tables@.len(),
            all == slots(tables@),
            forall|i: int| 0 <= i < tables@.len() ==> (#[trigger] tables@[i]).table.wf(),
            num_rows == tables_rows(all.take(i as int)),
            num_bytes == tables_size(all.take(i as int)),
            num_rows <= i * 0xffff_ffff_ffff_ffff,
            num_bytes <= i * 0xffff_ffff_ffff_ffff,
        decreases tables@.len() - i,
    {
        proof {
            assert(tables@[i as int].table.wf());
            assert(all.take(i + 1).drop_last() =~= all.take(i as int));
            assert(all.take(i + 1).last() == all[i as int]);
            assert(i * 0xffff_ffff_ffff_ffff + 0xffff_ffff_ffff_ffff
                <= 0xffff_ffff_ffff_ffff * 0xffff_ffff_ffff_ffff) by (nonlinear_arith)
                requires
                    i + 1 <= 0xffff_ffff_ffff_ffff,
            ;
        }
        num_rows = num_rows + tables[i].table.buckets_num_rows as u128;
        num_bytes = num_bytes + tables[i].table.buckets_size_bytes as u128;
        i += 1;
    }
    proof {
        assert(all.take(i as int) =~= all);
        assert(i * 0xffff_ffff_ffff_ffff <= 0xffff_ffff_ffff_ffff * 0xffff_ffff_ffff_ffff)
            by (nonlinear_arith)
            requires
                i <= 0xffff_ffff_ffff_ffff,
        ;
    }
    (num_rows, num_bytes)
}

fn count_static_cells(cells: &Vec<StaticCell>) -> (r: u128)
    ensures
        r == static_cells_size(cells@),
        r <= 0xffff_ffff_ffff_ffff * 0xffff_ffff_ffff_ffff,
{
    let mut num_bytes: u128 = 0;
    let mut i: usize = 0;
    while i < cells.len()
        invariant
            i <= cells@.len(),
            num_bytes == static_cells_size(cells@.take(i as int)),
            num_bytes <= i * 0xffff_ffff_ffff_ffff,
        decreases cells@.len() - i,
    {
        proof {
            assert(cells@.take(i + 1).drop_last() =~= cells@.take(i as int));
            assert(i * 0xffff_ffff_ffff_ffff + 0xffff_ffff_ffff_ffff
                <= 0xffff_ffff_ffff_ffff * 0xffff_ffff_ffff_ffff) by (nonlinear_arith)
                requires
                    i + 1 <= 0xffff_ffff_ffff_ffff,
            ;
        }
        num_bytes = num_bytes + cells[i].cell.size_bytes as u128;
        i += 1;
    }
    proof {
        assert(cells@.take(i as int) =~= cells@);
        assert(i * 0xffff_ffff_ffff_ffff <= 0xffff_ffff_ffff_ffff * 0xffff_ffff_ffff_ffff)
            by (nonlinear_arith)
            requires
                i <= 0xffff_ffff_ffff_ffff,
        ;
    }
    num_bytes
}

fn count_statics(tables: &Vec<StaticTable>) -> (r: u128)
    ensures
        r == statics_size(static_slots(tables@)),
{
    let ghost all = static_slots(tables@);
    let mut num_bytes: u128 = 0;
    let mut i: usize = 0;
    while i < tables.len()
        invariant
            i <= tables@.len(),
            all == static_slots(tables@),
            num_bytes == statics_size(all.take(i as int)),
        decreases tables@.len() - i,
    {
        assert(all.take(i + 1).drop_last() =~= all.take(i as int));
        assert(all.take(i + 1).last() == all[i as int]);
        num_bytes = capped_sum(num_bytes, count_static_cells(&tables[i].cells));
        i += 1;
    }
    assert(all.take(i as int) =~= all);
    num_bytes
}

impl DataStore {
    /// How many entities have static data.
    pub fn num_static_rows(&self) -> (r: u128)
        ensures
            r == self@.statics.len(),
            r <= 0xffff_ffff_ffff_ffff,
    {
        self.static_tables.len() as u128
    }

    /// How many rows all tables count.
    pub fn num_temporal_rows(&self) -> (r: u128)
        requires
            self.wf(),
        ensures
            r == tables_rows(self@.tables),
            r <= 0xffff_ffff_ffff_ffff * 0xffff_ffff_ffff_ffff,
    {
        count_tables(&self.tables).0
    }
}

/// Law: in total there are as many rows as there are static and temporal ones, and as many bytes as
/// in the registry, the static tables and the temporal ones, as far as that can be counted.
pub proof fn law_totals_add_up(store: StoreView)
    ensures
        ({
            let stats = stats_of(store);
            let rows = stats.static_tables.num_rows + stats.temporal.num_rows;
            let bytes = stats.metadata_registry.num_bytes + stats.static_tables.num_bytes
                + stats.temporal.num_bytes;
            &&& rows <= u128::MAX ==> stats.total.num_rows == rows
            &&& rows > u128::MAX ==> stats.total.num_rows == u128::MAX
            &&& bytes <= u128::MAX ==> stats.total.num_bytes == bytes
            &&& bytes > u128::MAX ==> stats.total.num_bytes == u128::MAX
        }),
{
}

/// Law: what is left when a part of the statistics is taken away makes up the whole together with it.
pub proof fn law_differences_add_up(a: DataStoreStats, b: DataStoreStats)
    ensures
        ({
            let rest = stats_minus(a, b);
            &&& a.temporal.num_rows >= b.temporal.num_rows ==> rest.temporal.num_rows
                + b.temporal.num_rows == a.temporal.num_rows
            &&& a.temporal.num_bytes >= b.temporal.num_bytes ==> rest.temporal.num_bytes
                + b.temporal.num_bytes == a.temporal.num_bytes
            &&& a.static_tables.num_rows >= b.static_tables.num_rows ==> rest.static_tables.num_rows
                + b.static_tables.num_rows == a.static_tables.num_rows
            &&& a.static_tables.num_bytes >= b.static_tables.num_bytes
                ==> rest.static_tables.num_bytes + b.static_tables.num_bytes
                == a.static_tables.num_bytes
            &&& a.metadata_registry.num_rows >= b.metadata_registry.num_rows
                ==> rest.metadata_registry.num_rows + b.metadata_registry.num_rows
                == a.metadata_registry.num_rows
            &&& a.metadata_registry.num_bytes >= b.metadata_registry.num_bytes
                ==> rest.metadata_registry.num_bytes + b.metadata_registry.num_bytes
                == a.metadata_registry.num_bytes
            &&& a.total.num_rows >= b.total.num_rows ==> rest.total.num_rows + b.total.num_rows
                == a.total.num_rows
            &&& a.total.num_bytes >= b.total.num_bytes ==> rest.total.num_bytes + b.total.num_bytes
                == a.total.num_bytes
        }),
{
}

} // verus!

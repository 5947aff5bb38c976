//! Adding rows whose ids may be taken.
use crate::names::{RowId, TWO_POW_64};
use crate::row::{DataRow, RowView, StoreEvent, StoreGeneration};
use crate::store::{
    addition_of, fits, in_use, next_wrapping, store_with, DataStore, DataStoreConfig, StoreView,
    WriteError,
};
use vstd::prelude::*;

verus! {

/// How many times to try to add a row before giving up. Way more than enough for all valid uses.
pub const MAX_INSERT_ROW_ATTEMPTS: usize = 1000;

/// How far apart the ids that are tried one after the other are at most.
pub const DEFAULT_INSERT_ROW_STEP_SIZE: u64 = 100;

/// A random number, if the system has one.
///
/// Calls `getrandom::getrandom` for eight bytes. Nothing is promised of the result.
#[verifier::external_body]
fn random_bits() -> (r: Option<u64>) {
    let mut bytes = [0u8; 8];
    getrandom::getrandom(&mut bytes).ok().map(|_| u64::from_le_bytes(bytes))
}

/// The number to go on with: what the system gave, or zero if it gave none.
pub fn number_or_zero(bits: Option<u64>) -> (r: u64)
    ensures
        r == (match bits {
            Some(bits) => bits,
            None => 0,
        }),
{
    match bits {
        Some(bits) => bits,
        None => 0,
    }
}

/// A random number; zero if the system has none. It can be any number.
fn random_u64() -> (r: u64) {
    number_or_zero(random_bits())
}

/// The same row under another id.
pub open spec fn with_row_id(row: RowView, row_id: RowId) -> RowView {
    RowView { row_id, ..row }
}

/// The id to try after one that was taken, given a random number.
pub open spec fn bumped(row_id: RowId, random: u64, step_size: u64) -> RowId {
    row_id.plus(random as int % step_size as int + 1)
}

/// How an attempt to add a row ends.
pub struct Insertion {
    pub store: StoreView,
    /// The row that was added, or why none was.
    pub outcome: Result<RowView, WriteError>,
}

/// How adding a row ends, given the random number that is drawn after each failure.
pub open spec fn inserted(
    store: StoreView,
    config: DataStoreConfig,
    row: RowView,
    num_attempts: nat,
    step_size: u64,
    randoms: Seq<u64>,
) -> Insertion
    decreases num_attempts,
{
    if num_attempts == 0 {
        Insertion { store, outcome: Err(WriteError::ReusedRowId(row.row_id)) }
    } else if in_use(store, config, row) {
        inserted(
            store,
            config,
            with_row_id(row, bumped(row.row_id, randoms[0], step_size)),
            (num_attempts - 1) as nat,
            step_size,
            randoms.skip(1),
        )
    } else if !fits(store, config, row) {
        Insertion { store, outcome: Err(WriteError::Full) }
    } else {
        Insertion { store: store_with(store, config, row), outcome: Ok(row) }
    }
}

/// Whether an event is what adding a row gives.
pub open spec fn is_addition_event(
    event: StoreEvent,
    store: DataStore,
    row: RowView,
) -> bool {
    &&& event.store_id == store.id
    &&& event.store_generation == (StoreGeneration {
        insert_id: next_wrapping(store.insert_id),
        gc_id: store.gc_id,
    })
    &&& event.event_id == store.event_id
    &&& event.diff@ == addition_of(row)
}

/// The id to try after one that was taken.
pub fn next_row_id(row_id: RowId, random: u64, step_size: u64) -> (r: RowId)
    requires
        step_size > 0,
    ensures
        r == bumped(row_id, random, step_size),
        r.nanos() == row_id.nanos(),
{
    row_id.incremented_by(random % step_size + 1)
}

/// Adds a row to a store, and tries again under another id as long as its id is taken.
///
/// Tries at most `num_attempts` times. In between, the counter of the id is bumped by a random
/// number of at least one and at most `step_size`.
///
/// Returns the event of the row that was added, which holds its actual id.
pub fn insert_row_with_retries(
    store: &mut DataStore,
    row: DataRow,
    num_attempts: usize,
    step_size: u64,
) -> (r: Result<StoreEvent, WriteError>)
    requires
        old(store).wf(),
        row.wf(),
        step_size > 0,
    ensures
        final(store).wf(),
        final(store).id == old(store).id,
        final(store).config == old(store).config,
        exists|randoms: Seq<u64>|
            ({
                let end = #[trigger] inserted(
                    old(store)@,
                    old(store).config,
                    row@,
                    num_attempts as nat,
                    step_size,
                    randoms,
                );
                &&& final(store)@ == end.store
                &&& match (r, end.outcome) {
                    (Ok(event), Ok(added)) => is_addition_event(event, *old(store), added),
                    (Err(error), Err(expected)) => error == expected,
                    _ => false,
                }
            }),
{
    let ghost start = store@;
    let ghost config = store.config;
    let ghost first = row@;
    let mut attempt = row;
    let ghost mut drawn: Seq<u64> = Seq::empty();
    let mut i: usize = 0;
    assert forall|randoms: Seq<u64>| #[trigger] randoms.skip(0) == randoms by {
        assert(randoms.skip(0) =~= randoms);
    }
    while i < num_attempts
        invariant
            i <= num_attempts,
            *store == *old(store),
            store.wf(),
            attempt.wf(),
            first == row@,
            step_size > 0,
            start == old(store)@,
            config == old(store).config,
            drawn.len() == i,
            forall|randoms: Seq<u64>|
                #![trigger inserted(start, config, first, num_attempts as nat, step_size, randoms)]
                drawn.is_prefix_of(randoms) ==> inserted(
                    start,
                    config,
                    first,
                    num_attempts as nat,
                    step_size,
                    randoms,
                ) == inserted(
                    start,
                    config,
                    attempt@,
                    (num_attempts - i) as nat,
                    step_size,
                    randoms.skip(i as int),
                ),
        decreases num_attempts - i,
    {
        match store.insert_row(&attempt) {
            Ok(event) => {
                proof {
                    let end = inserted(start, config, first, num_attempts as nat, step_size, drawn);
                    assert(drawn.is_prefix_of(drawn));
                }
                return Ok(event);
            },
            Err(WriteError::ReusedRowId(_)) => {
                let random: u64 = random_u64();
                let ghost before = attempt@;
                let ghost old_drawn = drawn;
                attempt.row_id = next_row_id(attempt.row_id, random, step_size);
                proof {
                    drawn = drawn.push(random);
                    assert(attempt@ =~= with_row_id(before, bumped(before.row_id, random, step_size)));
                    assert forall|randoms: Seq<u64>|
                        #![trigger inserted(start, config, first, num_attempts as nat, step_size, randoms)]
                        drawn.is_prefix_of(randoms) implies inserted(
                        start,
                        config,
                        first,
                        num_attempts as nat,
                        step_size,
                        randoms,
                    ) == inserted(
                        start,
                        config,
                        attempt@,
                        (num_attempts - i - 1) as nat,
                        step_size,
                        randoms.skip(i + 1),
                    ) by {
                        assert(randoms.take(drawn.len() as int)[i as int] == random);
                        assert(randoms.take(old_drawn.len() as int) =~= old_drawn);
                        assert(old_drawn.is_prefix_of(randoms));
                        assert(randoms.skip(i as int)[0] == random);
                        assert(randoms.skip(i as int).skip(1) =~= randoms.skip(i + 1));
                    }
                }
            },
            Err(error) => {
                proof {
                    let end = inserted(start, config, first, num_attempts as nat, step_size, drawn);
                    assert(drawn.is_prefix_of(drawn));
                }
                return Err(error);
            },
        }
        i += 1;
    }
    proof {
        let end = inserted(start, config, first, num_attempts as nat, step_size, drawn);
        assert(drawn.is_prefix_of(drawn));
    }
    Err(WriteError::ReusedRowId(attempt.row_id))
}

/// Law: however often a row is tried again, what is added differs from it in nothing but the
/// counter of its id; a row whose id is free is added as it is, and a row that is not added leaves
/// no trace.
pub proof fn law_retries_change_only_the_counter(
    store: StoreView,
    config: DataStoreConfig,
    row: RowView,
    num_attempts: nat,
    step_size: u64,
    randoms: Seq<u64>,
)
    requires
        step_size > 0,
    ensures
        inserted(store, config, row, num_attempts, step_size, randoms).outcome matches Ok(added)
            ==> {
            &&& added == with_row_id(row, added.row_id)
            &&& added.row_id.nanos() == row.row_id.nanos()
            &&& !in_use(store, config, added)
            &&& !in_use(store, config, row) ==> added == row
            &&& inserted(store, config, row, num_attempts, step_size, randoms).store == store_with(
                store,
                config,
                added,
            )
        },
        inserted(store, config, row, num_attempts, step_size, randoms).outcome is Err
            ==> inserted(store, config, row, num_attempts, step_size, randoms).store == store,
    decreases num_attempts,
{
    if num_attempts > 0 && in_use(store, config, row) {
        let next = with_row_id(row, bumped(row.row_id, randoms[0], step_size));
        crate::names::lemma_plus_keeps_nanos(
            row.row_id,
            randoms[0] as int % step_size as int + 1,
        );
        law_retries_change_only_the_counter(
            store,
            config,
            next,
            (num_attempts - 1) as nat,
            step_size,
            randoms.skip(1),
        );
    }
}

/// Law: a row is never added under a lower id than its own, and under a higher one if its own is
/// taken. This holds unless its counter wraps around.
pub proof fn law_retries_count_upwards(
    store: StoreView,
    config: DataStoreConfig,
    row: RowView,
    num_attempts: nat,
    step_size: u64,
    randoms: Seq<u64>,
)
    requires
        step_size > 0,
        row.row_id.inc() + num_attempts * step_size < TWO_POW_64,
    ensures
        inserted(store, config, row, num_attempts, step_size, randoms).outcome matches Ok(added)
            ==> {
            &&& row.row_id.bits <= added.row_id.bits <= row.row_id.bits + num_attempts * step_size
            &&& added.row_id.nanos() == row.row_id.nanos()
            &&& added.row_id.inc() <= row.row_id.inc() + num_attempts * step_size
            &&& in_use(store, config, row) ==> row.row_id.bits < added.row_id.bits
        },
    decreases num_attempts,
{
    assert(num_attempts * step_size >= 0) by (nonlinear_arith);
    if num_attempts > 0 && in_use(store, config, row) {
        let n = randoms[0] as int % step_size as int + 1;
        let rest = (num_attempts - 1) as nat;
        let next = with_row_id(row, bumped(row.row_id, randoms[0], step_size));
        assert(num_attempts * step_size == rest * step_size + step_size && rest * step_size >= 0)
            by (nonlinear_arith)
            requires
                num_attempts == rest + 1,
        ;
        crate::names::lemma_plus_grows(row.row_id, n);
        law_retries_count_upwards(store, config, next, rest, step_size, randoms.skip(1));
    }
}

/// The id that is tried after some others were taken: each time, the counter moves on by at least
/// one and at most by the step size, as a random number says.
pub open spec fn nth_try(row_id: RowId, randoms: Seq<u64>, step_size: u64, k: nat) -> RowId
    decreases k,
{
    if k == 0 {
        row_id
    } else {
        let n = (k - 1) as nat;
        nth_try(row_id, randoms, step_size, n).plus(
            randoms[n as int] as int % step_size as int + 1,
        )
    }
}

proof fn lemma_later_try(row_id: RowId, randoms: Seq<u64>, step_size: u64, k: nat)
    requires
        k < randoms.len(),
    ensures
        nth_try(row_id, randoms, step_size, k + 1) == nth_try(
            bumped(row_id, randoms[0], step_size),
            randoms.skip(1),
            step_size,
            k,
        ),
    decreases k,
{
    if k == 0 {
        reveal_with_fuel(nth_try, 2);
    } else {
        lemma_later_try(row_id, randoms, step_size, (k - 1) as nat);
        assert(randoms.skip(1)[k - 1] == randoms[k as int]);
    }
}

/// Whether the first id that is free among those that are tried is a given one.
pub open spec fn is_first_free(
    store: StoreView,
    config: DataStoreConfig,
    row: RowView,
    step_size: u64,
    randoms: Seq<u64>,
    k: nat,
) -> bool {
    &&& !in_use(store, config, with_row_id(row, nth_try(row.row_id, randoms, step_size, k)))
    &&& forall|j: nat|
        j < k ==> in_use(
            store,
            config,
            with_row_id(row, #[trigger] nth_try(row.row_id, randoms, step_size, j)),
        )
}

/// Law: a row is added under the first id that is free, of as many as there are attempts. It is
/// refused for its id if and only if all of them are taken.
pub proof fn law_the_first_free_id_is_taken(
    store: StoreView,
    config: DataStoreConfig,
    row: RowView,
    num_attempts: nat,
    step_size: u64,
    randoms: Seq<u64>,
)
    requires
        num_attempts <= randoms.len(),
    ensures
        ({
            let outcome = inserted(
                store,
                config,
                row,
                num_attempts,
                step_size,
                randoms,
            ).outcome;
            &&& outcome matches Ok(added) ==> exists|k: nat|
                k < num_attempts && #[trigger] is_first_free(
                    store,
                    config,
                    row,
                    step_size,
                    randoms,
                    k,
                ) && added == with_row_id(row, nth_try(row.row_id, randoms, step_size, k))
            &&& (outcome is Err && outcome->Err_0 is ReusedRowId) <==> forall|j: nat|
                j < num_attempts ==> in_use(
                    store,
                    config,
                    with_row_id(row, #[trigger] nth_try(row.row_id, randoms, step_size, j)),
                )
        }),
    decreases num_attempts,
{
    let outcome = inserted(store, config, row, num_attempts, step_size, randoms).outcome;
    assert(nth_try(row.row_id, randoms, step_size, 0) == row.row_id);
    assert(with_row_id(row, row.row_id) == row);
    if num_attempts > 0 {
        if in_use(store, config, row) {
            let next = with_row_id(row, bumped(row.row_id, randoms[0], step_size));
            let fewer = (num_attempts - 1) as nat;
            let rest = randoms.skip(1);
            law_the_first_free_id_is_taken(store, config, next, fewer, step_size, rest);
            assert forall|k: nat| k < fewer implies with_row_id(
                next,
                #[trigger] nth_try(next.row_id, rest, step_size, k),
            ) == with_row_id(row, nth_try(row.row_id, randoms, step_size, k + 1)) by {
                lemma_later_try(row.row_id, randoms, step_size, k);
            }
            if let Ok(added) = outcome {
                let k = choose|k: nat|
                    k < fewer && #[trigger] is_first_free(store, config, next, step_size, rest, k)
                        && added == with_row_id(next, nth_try(next.row_id, rest, step_size, k));
                assert(is_first_free(store, config, row, step_size, randoms, k + 1)) by {
                    assert forall|j: nat| j < k + 1 implies in_use(
                        store,
                        config,
                        with_row_id(row, #[trigger] nth_try(row.row_id, randoms, step_size, j)),
                    ) by {
                        if j > 0 {
                            let i = (j - 1) as nat;
                            assert(in_use(
                                store,
                                config,
                                with_row_id(next, nth_try(next.row_id, rest, step_size, i)),
                            ));
                        }
                    }
                }
            }
            if forall|j: nat|
                j < fewer ==> in_use(
                    store,
                    config,
                    with_row_id(next, #[trigger] nth_try(next.row_id, rest, step_size, j)),
                ) {
                assert forall|j: nat| j < num_attempts implies in_use(
                    store,
                    config,
                    with_row_id(row, #[trigger] nth_try(row.row_id, randoms, step_size, j)),
                ) by {
                    if j > 0 {
                        let i = (j - 1) as nat;
                        assert(in_use(
                            store,
                            config,
                            with_row_id(next, nth_try(next.row_id, rest, step_size, i)),
                        ));
                    }
                }
            }
            if forall|j: nat|
                j < num_attempts ==> in_use(
                    store,
                    config,
                    with_row_id(row, #[trigger] nth_try(row.row_id, randoms, step_size, j)),
                ) {
                assert forall|j: nat| j < fewer implies in_use(
                    store,
                    config,
                    with_row_id(next, #[trigger] nth_try(next.row_id, rest, step_size, j)),
                ) by {
                    assert(in_use(
                        store,
                        config,
                        with_row_id(row, nth_try(row.row_id, randoms, step_size, j + 1)),
                    ));
                }
            }
        } else {
            assert(is_first_free(store, config, row, step_size, randoms, 0));
        }
    }
}

} // verus!

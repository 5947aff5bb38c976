//! What is exported of a database: what a selection of times covers.
use crate::bucket::ResolvedTimeRange;
use crate::entity_db::SetStoreInfo;
use crate::ingest::LogMsg;
use crate::names::{temporal, StoreId, StoreKind, TimeInt, Timeline, TIME_MIN};
use crate::row::RowView;
use crate::upkeep::{
    activation_messages, ceil_spec, covers_times, floor_spec, info_messages, selected_rows,
    TimeReal, TIME_REAL_ONE,
};
use vstd::prelude::*;

verus! {

/// Whether one of the times of a row, wherever it stands among them, is on a timeline and in a
/// range.
pub open spec fn has_time_in(row: RowView, timeline: Timeline, min: i64, max: i64) -> bool {
    exists|time: (Timeline, TimeInt)| #[trigger]
        row.times.contains(time) && time.0@ == timeline@ && min <= time.1.value <= max
}

/// Law: a row is exported under a selection if and only if it is static or one of its times is on
/// the timeline that was selected and in the range. Rows are exported as they are, in the order in
/// which they are stored.
pub proof fn law_exports_hold_what_is_selected(
    rows: Seq<RowView>,
    timeline: Timeline,
    range: ResolvedTimeRange,
)
    ensures
        selected_rows(rows, Some((timeline, range))) == rows.filter(
            |row: RowView|
                row.times.len() == 0 || has_time_in(
                    row,
                    timeline,
                    range.min.value,
                    range.max.value,
                ),
        ),
    decreases rows.len(),
{
    let chosen = |row: RowView|
        row.times.len() == 0 || has_time_in(row, timeline, range.min.value, range.max.value);
    reveal(Seq::filter);
    if rows.len() > 0 {
        law_exports_hold_what_is_selected(rows.drop_last(), timeline, range);
        let row = rows.last();
        let filter = Some((timeline, range));
        if covers_times(filter, row.times) && row.times.len() > 0 {
            let j = choose|j: int|
                0 <= j < row.times.len() && (#[trigger] row.times[j]).0@ == timeline@
                    && range.min.value <= row.times[j].1.value <= range.max.value;
            assert(row.times.contains(row.times[j]));
        }
        if has_time_in(row, timeline, range.min.value, range.max.value) {
            let time = choose|time: (Timeline, TimeInt)| #[trigger]
                row.times.contains(time) && time.0@ == timeline@ && range.min.value
                    <= time.1.value <= range.max.value;
            let j = row.times.index_of(time);
            assert(row.times[j] == time);
        }
    } else {
        assert(rows.filter(chosen) =~= rows);
    }
}

/// Law: without a selection, everything is exported.
pub proof fn law_exports_hold_everything(rows: Seq<RowView>)
    ensures
        selected_rows(rows, None) == rows,
    decreases rows.len(),
{
    if rows.len() > 0 {
        law_exports_hold_everything(rows.drop_last());
        assert(rows.drop_last().push(rows.last()) =~= rows);
    }
}

/// Law: whether a row is exported has nothing to do with the order in which it lists its times.
pub proof fn law_the_order_of_times_does_not_matter(
    row: RowView,
    other: RowView,
    timeline: Timeline,
    range: ResolvedTimeRange,
)
    requires
        forall|time: (Timeline, TimeInt)| #[trigger]
            row.times.contains(time) <==> other.times.contains(time),
    ensures
        selected_rows(seq![row], Some((timeline, range))).len() == selected_rows(
            seq![other],
            Some((timeline, range)),
        ).len(),
{
    if row.times.len() > 0 {
        assert(row.times.contains(row.times[0]));
        assert(other.times.contains(row.times[0]));
    }
    if other.times.len() > 0 {
        assert(other.times.contains(other.times[0]));
        assert(row.times.contains(other.times[0]));
    }
    let filter = Some((timeline, range));
    reveal_with_fuel(selected_rows, 2);
    if covers_times(filter, row.times) && row.times.len() > 0 {
        let j = choose|j: int|
            0 <= j < row.times.len() && (#[trigger] row.times[j]).0@ == timeline@
                && range.min.value <= row.times[j].1.value <= range.max.value;
        assert(row.times.contains(row.times[j]));
        assert(other.times.contains(row.times[j]));
        let k = other.times.index_of(row.times[j]);
        assert(other.times[k] == row.times[j]);
    }
    if covers_times(filter, other.times) && other.times.len() > 0 {
        let j = choose|j: int|
            0 <= j < other.times.len() && (#[trigger] other.times[j]).0@ == timeline@
                && range.min.value <= other.times[j].1.value <= range.max.value;
        assert(other.times.contains(other.times[j]));
        assert(row.times.contains(other.times[j]));
        let k = row.times.index_of(other.times[j]);
        assert(row.times[k] == other.times[j]);
    }
}

/// Law: the whole times that a selection stands for are those that lie in it, and at either end at
/// most one more, which is less than one step away from it.
pub proof fn law_selections_are_rounded_outwards(min: TimeReal, max: TimeReal, time: i64)
    requires
        time > i64::MIN,
    ensures
        min.bits <= time * TIME_REAL_ONE <= max.bits ==> temporal(floor_spec(min) as i64).value
            <= time <= temporal(ceil_spec(max) as i64).value,
        temporal(floor_spec(min) as i64).value <= time ==> time <= TIME_MIN || min.bits < (time + 1)
            * TIME_REAL_ONE,
        time <= temporal(ceil_spec(max) as i64).value ==> time <= TIME_MIN || (time - 1)
            * TIME_REAL_ONE < max.bits,
{
    let one = TIME_REAL_ONE as int;
    vstd::arithmetic::div_mod::lemma_fundamental_div_mod(min.bits as int, one);
    vstd::arithmetic::div_mod::lemma_fundamental_div_mod(max.bits as int, one);
    assert(i64::MIN <= floor_spec(min) <= i64::MAX);
    assert(i64::MIN <= ceil_spec(max) <= i64::MAX);
}

/// Law: what is said about a store, besides its data, is what it is, if that is known, before the
/// data, and of a blueprint that it is to become both the active and the default one, after the
/// data.
pub proof fn law_only_blueprints_are_activated<D>(info: Option<SetStoreInfo>, id: StoreId)
    ensures
        info is None ==> info_messages::<D>(info).len() == 0,
        info matches Some(msg) ==> info_messages::<D>(info).len() == 1 && info_messages::<D>(
            info,
        )[0] == LogMsg::<D>::SetStoreInfo(msg),
        id.kind == StoreKind::Recording ==> activation_messages::<D>(id).len() == 0,
        id.kind == StoreKind::Blueprint ==> activation_messages::<D>(id).len() == 1 && (
        activation_messages::<D>(id)[0] matches LogMsg::BlueprintActivationCommand(command)
            && command.blueprint_id == id && command.make_active && command.make_default),
{
}

} // verus!

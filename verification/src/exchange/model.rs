//! What a collection of instruments is, as mathematics: its timeline, where
//! each row of each instrument stands on it, and what follows from that.

use vstd::prelude::*;
use crate::exchange::asset::AssetView;
use crate::standard::array::{
    contiguous_in, is_run_at, lemma_merged_contains, lemma_merged_increasing, merged,
    strictly_increasing,
};
use crate::standard::types::{is_zero_bits, NAN_BITS};

verus! {

/// The name is `close`, in any mix of upper and lower case.
pub open spec fn is_close_name(name: Seq<char>) -> bool {
    &&& name.len() == 5
    &&& (name[0] == 'c' || name[0] == 'C')
    &&& (name[1] == 'l' || name[1] == 'L')
    &&& (name[2] == 'o' || name[2] == 'O')
    &&& (name[3] == 's' || name[3] == 'S')
    &&& (name[4] == 'e' || name[4] == 'E')
}

/// Some column is named `close`.
pub open spec fn has_close(headers: Seq<Seq<char>>) -> bool {
    exists|i: int| 0 <= i < headers.len() && is_close_name(#[trigger] headers[i])
}

/// Column `index` is the first that is named `close`.
pub open spec fn is_first_close(headers: Seq<Seq<char>>, index: int) -> bool {
    &&& 0 <= index < headers.len()
    &&& is_close_name(headers[index])
    &&& forall|i: int| 0 <= i < index ==> !is_close_name(#[trigger] headers[i])
}

/// The timeline of a sequence of instruments: their timestamps merged one
/// instrument after another, in the order of their numbers.
pub open spec fn timeline_of(assets: Seq<AssetView>) -> Seq<i64>
    decreases assets.len(),
{
    if assets.len() == 0 {
        Seq::empty()
    } else {
        merged(timeline_of(assets.drop_last()), assets.last().timestamps)
    }
}

/// The instruments can be aligned: there is one at least, each has its place
/// as its number, the first has a close column, all have the columns of the
/// first, the timestamps of each increase strictly, and each series is one
/// unbroken run of the timeline.
pub open spec fn valid_collection(assets: Seq<AssetView>) -> bool {
    &&& assets.len() > 0
    &&& forall|i: int| 0 <= i < assets.len() ==> (#[trigger] assets[i]).id == i
    &&& has_close(assets[0].headers)
    &&& forall|i: int| 0 <= i < assets.len() ==> (#[trigger] assets[i]).headers == assets[0].headers
    &&& forall|i: int|
        0 <= i < assets.len() ==> strictly_increasing((#[trigger] assets[i]).timestamps)
    &&& forall|i: int|
        0 <= i < assets.len() ==> contiguous_in(
            timeline_of(assets),
            (#[trigger] assets[i]).timestamps,
        )
}

/// What can keep the instruments of a collection from being aligned.
pub enum Fault {
    /// The number of the instrument is not its place in the collection.
    WrongNumber,
    /// The first instrument has no close column.
    MissingClose,
    /// The instrument does not have the columns of the first.
    ColumnsDiffer,
    /// The timestamps of the instrument do not increase strictly.
    NotIncreasing,
    /// The series of the instrument is no unbroken run of the timeline.
    NotContiguous,
}

/// How an error names a fault.
pub open spec fn fault_text(fault: Fault) -> Seq<char> {
    match fault {
        Fault::WrongNumber => "asset id is not its place in the exchange"@,
        Fault::MissingClose => "close header not found in exchange"@,
        Fault::ColumnsDiffer => "asset headers do not match those of the exchange"@,
        Fault::NotIncreasing => "asset timestamps are not in ascending order"@,
        Fault::NotContiguous =>
            "asset timestamps are not a contiguous subset of exchange timestamps"@,
    }
}

/// What is wrong with instrument `i`, taken by itself and against the first.
pub open spec fn own_fault(assets: Seq<AssetView>, i: int) -> Option<Fault> {
    if assets[i].id != i {
        Some(Fault::WrongNumber)
    } else if i == 0 && !has_close(assets[0].headers) {
        Some(Fault::MissingClose)
    } else if assets[i].headers != assets[0].headers {
        Some(Fault::ColumnsDiffer)
    } else if !strictly_increasing(assets[i].timestamps) {
        Some(Fault::NotIncreasing)
    } else {
        None
    }
}

/// `fault` of instrument `i` is the fault that is found first. The instruments
/// are checked in the order of their numbers, each by itself and against the
/// first; after that each is checked against the timeline, in the same order.
pub open spec fn is_first_fault(assets: Seq<AssetView>, i: int, fault: Fault) -> bool {
    &&& 0 <= i < assets.len()
    &&& forall|j: int| 0 <= j < i ==> own_fault(assets, j) is None
    &&& if fault is NotContiguous {
        &&& forall|j: int| i <= j < assets.len() ==> own_fault(assets, j) is None
        &&& !contiguous_in(timeline_of(assets), assets[i].timestamps)
        &&& forall|j: int|
            0 <= j < i ==> contiguous_in(timeline_of(assets), (#[trigger] assets[j]).timestamps)
    } else {
        own_fault(assets, i) == Some(fault)
    }
}

/// The text of the error for `fault` of instrument `i`: what the fault is,
/// and the name of the instrument.
pub open spec fn fault_message(assets: Seq<AssetView>, i: int, fault: Fault) -> Seq<char> {
    fault_text(fault) + ": "@ + assets[i].name
}

/// Every instrument has one row of cells for each of its timestamps.
pub open spec fn all_wf(assets: Seq<AssetView>) -> bool {
    forall|i: int| 0 <= i < assets.len() ==> (#[trigger] assets[i]).wf()
}

/// The aligned cells of the instruments can be allocated as one matrix.
pub open spec fn fits_memory(assets: Seq<AssetView>) -> bool {
    assets.len() * (timeline_of(assets).len() * assets[0].cols) * 8 <= isize::MAX
}

/// Row `row` exists and neither it nor any row before it has the timestamp 0.
/// A row with the timestamp 0 is never placed, and hides the rows after it.
pub open spec fn row_visible(timestamps: Seq<i64>, row: int) -> bool {
    &&& 0 <= row < timestamps.len()
    &&& forall|j: int| 0 <= j <= row ==> timestamps[j] != 0
}

/// Row `row` is the observation at `instant`.
pub open spec fn is_observed_row(timestamps: Seq<i64>, instant: i64, row: int) -> bool {
    row_visible(timestamps, row) && timestamps[row] == instant
}

/// The row that is observed at `instant`, if there is one.
pub open spec fn observed_row(timestamps: Seq<i64>, instant: i64) -> Option<int> {
    if exists|row: int| is_observed_row(timestamps, instant, row) {
        Some(choose|row: int| is_observed_row(timestamps, instant, row))
    } else {
        None
    }
}

/// What stands for `asset` at `instant` in column `col`: the cell of the
/// observed row, or the not-a-number sentinel where nothing is observed.
pub open spec fn aligned_cell(asset: AssetView, instant: i64, col: int) -> u64 {
    match observed_row(asset.timestamps, instant) {
        Some(row) => asset.cell(row, col),
        None => NAN_BITS,
    }
}

/// The aligned row of `asset`: for each step of the timeline a block of one
/// cell for each column.
pub open spec fn aligned_row(asset: AssetView, timeline: Seq<i64>) -> Seq<u64> {
    Seq::new(
        timeline.len() * asset.cols,
        |j: int| aligned_cell(asset, timeline[j / asset.cols as int], j % asset.cols as int),
    )
}

/// The aligned matrix: one aligned row for each instrument.
pub open spec fn aligned_matrix(assets: Seq<AssetView>, timeline: Seq<i64>) -> Seq<Seq<u64>> {
    Seq::new(assets.len(), |i: int| aligned_row(assets[i], timeline))
}

/// The return of one instrument over one step of the timeline.
#[derive(Clone, Copy, Debug, PartialEq, Eq, Structural)]
pub enum StepReturn {
    /// The return is zero: the instrument is not observed at the step, or the
    /// step is its first, or its close before the step is zero.
    Zero,
    /// The return is the relative change from the close `previous`, which is
    /// not zero, to the close `current`, both as bit patterns.
    Change { previous: u64, current: u64 },
}

/// The return over the step from the close `previous` to the close `current`:
/// zero where `previous` is zero, and else the change between the two.
pub open spec fn return_over(previous: u64, current: u64) -> StepReturn {
    if is_zero_bits(previous) {
        StepReturn::Zero
    } else {
        StepReturn::Change { previous, current }
    }
}

/// The return of `asset` at `instant`, taken over its close column `close`:
/// zero where the instrument is not observed or shows its first row, and else
/// the return over the step from the close of the row before.
pub open spec fn return_at(asset: AssetView, close: int, instant: i64) -> StepReturn {
    match observed_row(asset.timestamps, instant) {
        Some(row) => if row > 0 {
            return_over(asset.cell(row - 1, close), asset.cell(row, close))
        } else {
            StepReturn::Zero
        },
        None => StepReturn::Zero,
    }
}

/// Where the timestamps of every instrument increase strictly, so does the
/// timeline.
pub proof fn lemma_timeline_increasing(assets: Seq<AssetView>)
    requires
        forall|i: int|
            0 <= i < assets.len() ==> strictly_increasing((#[trigger] assets[i]).timestamps),
    ensures
        strictly_increasing(timeline_of(assets)),
    decreases assets.len(),
{
    if assets.len() > 0 {
        let front = assets.drop_last();
        assert forall|i: int| 0 <= i < front.len() implies strictly_increasing(
            (#[trigger] front[i]).timestamps,
        ) by {
            assert(front[i] == assets[i]);
        }
        lemma_timeline_increasing(front);
        lemma_merged_increasing(timeline_of(front), assets.last().timestamps);
    }
}

/// An instant is on the timeline exactly when some instrument has it as a
/// timestamp.
pub proof fn lemma_timeline_is_union(assets: Seq<AssetView>, instant: i64)
    ensures
        timeline_of(assets).contains(instant) <==> exists|i: int|
            0 <= i < assets.len() && (#[trigger] assets[i]).timestamps.contains(instant),
    decreases assets.len(),
{
    if assets.len() > 0 {
        let front = assets.drop_last();
        let last = assets.len() - 1;
        lemma_timeline_is_union(front, instant);
        lemma_merged_contains(timeline_of(front), assets.last().timestamps, instant);
        if timeline_of(front).contains(instant) {
            let i = choose|i: int|
                0 <= i < front.len() && (#[trigger] front[i]).timestamps.contains(instant);
            assert(assets[i] == front[i]);
        }
        if exists|i: int|
            0 <= i < assets.len() && (#[trigger] assets[i]).timestamps.contains(instant) {
            let i = choose|i: int|
                0 <= i < assets.len() && (#[trigger] assets[i]).timestamps.contains(instant);
            if i < last {
                assert(front[i] == assets[i]);
            }
        }
    }
}

/// Two rows with the same timestamp are the same row.
pub proof fn lemma_increasing_is_injective(s: Seq<i64>, a: int, b: int)
    requires
        strictly_increasing(s),
        0 <= a < s.len(),
        0 <= b < s.len(),
        s[a] == s[b],
    ensures
        a == b,
{
    if a < b {
        assert(s[a] < s[b]);
    } else if b < a {
        assert(s[b] < s[a]);
    }
}

/// At most one row is observed at an instant.
pub proof fn lemma_observed_row_is(timestamps: Seq<i64>, instant: i64, row: int)
    requires
        strictly_increasing(timestamps),
        is_observed_row(timestamps, instant, row),
    ensures
        observed_row(timestamps, instant) == Some(row),
{
    let chosen = choose|r: int| is_observed_row(timestamps, instant, r);
    lemma_increasing_is_injective(timestamps, chosen, row);
}

/// How far the walk along the timeline has come: at `step`, the next row of
/// the instrument to place is `cursor`. `offset` is where the series starts
/// on the timeline.
pub open spec fn cursor_inv(stamps: Seq<i64>, offset: int, step: int, cursor: int) -> bool {
    &&& 0 <= cursor <= stamps.len()
    &&& forall|j: int| 0 <= j < cursor ==> stamps[j] != 0
    &&& stamps.len() > 0 ==> {
        ||| (step <= offset && cursor == 0)
        ||| (offset <= step && cursor == step - offset)
        ||| (step > offset + cursor && (cursor == stamps.len() || stamps[cursor] == 0))
    }
}

/// The row under the cursor is placed at `step`.
pub open spec fn cursor_matches(timeline: Seq<i64>, stamps: Seq<i64>, step: int, cursor: int) -> bool {
    cursor < stamps.len() && stamps[cursor] != 0 && stamps[cursor] == timeline[step]
}

/// One step of the walk: the row under the cursor is placed exactly when it is
/// the observation at the step, and then the cursor moves on by one.
pub proof fn lemma_cursor_step(
    timeline: Seq<i64>,
    stamps: Seq<i64>,
    offset: int,
    step: int,
    cursor: int,
)
    requires
        strictly_increasing(timeline),
        strictly_increasing(stamps),
        stamps.len() > 0 ==> is_run_at(timeline, stamps, offset),
        0 <= step < timeline.len(),
        cursor_inv(stamps, offset, step, cursor),
    ensures
        cursor_matches(timeline, stamps, step, cursor) ==> {
            &&& observed_row(stamps, timeline[step]) == Some(cursor)
            &&& cursor_inv(stamps, offset, step + 1, cursor + 1)
            &&& step == offset + cursor
        },
        !cursor_matches(timeline, stamps, step, cursor) ==> {
            &&& observed_row(stamps, timeline[step]) is None
            &&& cursor_inv(stamps, offset, step + 1, cursor)
        },
{
    let instant = timeline[step];
    assert forall|row: int| 0 <= row < stamps.len() && stamps[row] == instant implies offset + row
        == step by {
        assert(timeline[offset + row] == stamps[row]);
        lemma_increasing_is_injective(timeline, offset + row, step);
    }
    if cursor_matches(timeline, stamps, step, cursor) {
        assert(is_observed_row(stamps, instant, cursor));
        lemma_observed_row_is(stamps, instant, cursor);
    } else {
        assert forall|row: int| !is_observed_row(stamps, instant, row) by {
            if is_observed_row(stamps, instant, row) {
                assert(offset + row == step);
                assert(stamps[row] != 0);
                if cursor < stamps.len() && cursor <= row {
                    assert(stamps[cursor] != 0);
                }
                if cursor < stamps.len() {
                    assert(timeline[offset + cursor] == stamps[cursor]);
                }
                assert(false);
            }
        }
        if stamps.len() > 0 && cursor < stamps.len() {
            assert(timeline[offset + cursor] == stamps[cursor]);
        }
    }
}

} // verus!

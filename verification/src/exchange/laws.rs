//! What holds of every collection that was built.

use vstd::prelude::*;
use crate::exchange::asset::{
    asset_views, csv_records, has_table_fault, ingest_outcome, ingested, is_table, read_outcome,
    records_text, stamps_parse, texts, Asset, AssetView, TableFault,
};
use crate::exchange::exchange::{
    all_read, assemble_error, built_outcome, file_order, file_outcome, read_failed, stem_of,
    stems_of, Exchange, ExchangeView, SourceFile,
};
use crate::exchange::order::{
    lemma_reading_order_follows_stems, lemma_reading_order_holds_all, lemma_reading_order_sorted,
    read_before,
};
use crate::standard::text::{lemma_text_lt_irreflexive, text_lt};
use crate::standard::time::epoch_seconds;
use crate::standard::types::AtlasResult;
use crate::exchange::model::{
    aligned_row, is_close_name, is_observed_row, lemma_increasing_is_injective,
    lemma_observed_row_is, lemma_timeline_increasing, observed_row, return_over, row_visible,
    StepReturn,
};
use crate::standard::array::{is_run_at, strictly_increasing};
use crate::standard::types::{
    is_nan_bits, is_zero_bits, lemma_cell_index, lemma_cell_place, lemma_sentinel_is_nan,
    NAN_BITS,
};

verus! {

impl ExchangeView {
    /// The number of columns.
    pub open spec fn cols(self) -> int {
        self.columns.len() as int
    }

    /// Instrument `asset` is observed at step `step`.
    pub open spec fn is_observed(self, asset: int, step: int) -> bool {
        observed_row(self.assets[asset].timestamps, self.timeline[step]) is Some
    }

    /// `asset`, `step` and `col` name a cell of the collection.
    pub open spec fn has_cell(self, asset: int, step: int, col: int) -> bool {
        &&& 0 <= asset < self.assets.len()
        &&& 0 <= step < self.timeline.len()
        &&& 0 <= col < self.cols()
    }
}

/// The matrix has one row for each instrument; in it the values of a step
/// stand together, one for each column, step after step.
pub proof fn lemma_aligned_layout(view: ExchangeView, asset: int, step: int, col: int)
    requires
        view.wf(),
        view.has_cell(asset, step, col),
    ensures
        view.aligned.len() == view.assets.len(),
        view.aligned[asset].len() == view.timeline.len() * view.cols(),
        0 <= step * view.cols() + col < view.aligned[asset].len(),
        view.aligned[asset][step * view.cols() + col] == view.value(asset, step, col),
        view.assets[asset].cols == view.cols(),
        0 <= view.close_index < view.cols(),
        strictly_increasing(view.timeline),
{
    let series = view.assets[asset];
    assert(series.headers == view.assets[0].headers);
    assert(series.wf());
    lemma_cell_index(step, col, view.timeline.len() as int, view.cols());
    assert(view.aligned[asset] == aligned_row(series, view.timeline));
    lemma_timeline_increasing(view.assets);
}

/// Where the series of an instrument starts on the timeline: from there on the
/// timeline holds its timestamps one after another.
pub proof fn lemma_series_offset(view: ExchangeView, asset: int) -> (offset: int)
    requires
        view.wf(),
        0 <= asset < view.assets.len(),
        view.assets[asset].timestamps.len() > 0,
    ensures
        is_run_at(view.timeline, view.assets[asset].timestamps, offset),
        strictly_increasing(view.timeline),
        strictly_increasing(view.assets[asset].timestamps),
{
    lemma_timeline_increasing(view.assets);
    let series = view.assets[asset];
    choose|offset: int| is_run_at(view.timeline, series.timestamps, offset)
}

/// Every row of every instrument that no zero timestamp hides stands in the
/// matrix at one step and no other, the step of its timestamp, with each of
/// its cells as it was.
pub proof fn lemma_alignment_complete(view: ExchangeView, asset: int, row: int) -> (step: int)
    requires
        view.wf(),
        0 <= asset < view.assets.len(),
        row_visible(view.assets[asset].timestamps, row),
    ensures
        0 <= step < view.timeline.len(),
        view.timeline[step] == view.assets[asset].timestamps[row],
        forall|other: int|
            0 <= other < view.timeline.len() && #[trigger] view.timeline[other]
                == view.assets[asset].timestamps[row] ==> other == step,
        forall|col: int|
            0 <= col < view.cols() ==> #[trigger] view.value(asset, step, col)
                == view.assets[asset].cell(row, col),
        forall|col: int|
            0 <= col < view.cols() ==> view.aligned[asset][step * view.cols() + col]
                == #[trigger] view.assets[asset].cell(row, col),
{
    let series = view.assets[asset];
    let offset = lemma_series_offset(view, asset);
    let step = offset + row;
    assert(view.timeline[offset + row] == series.timestamps[row]);
    assert forall|other: int|
        0 <= other < view.timeline.len() && #[trigger] view.timeline[other]
            == series.timestamps[row] implies other == step by {
        lemma_increasing_is_injective(view.timeline, other, step);
    }
    assert(is_observed_row(series.timestamps, view.timeline[step], row));
    lemma_observed_row_is(series.timestamps, view.timeline[step], row);
    assert forall|col: int| 0 <= col < view.cols() implies view.aligned[asset][step * view.cols()
        + col] == #[trigger] series.cell(row, col) by {
        lemma_aligned_layout(view, asset, step, col);
    }
    step
}

/// Where an instrument has no row for the instant of a step, every cell of
/// the step is a not-a-number and the return is zero.
pub proof fn lemma_missing_is_nan(view: ExchangeView, asset: int, step: int, col: int)
    requires
        view.wf(),
        view.has_cell(asset, step, col),
        !view.assets[asset].timestamps.contains(view.timeline[step]),
    ensures
        !view.is_observed(asset, step),
        view.value(asset, step, col) == NAN_BITS,
        view.aligned[asset][step * view.cols() + col] == NAN_BITS,
        is_nan_bits(view.aligned[asset][step * view.cols() + col]),
        view.step_return(asset, step) == StepReturn::Zero,
{
    lemma_unobserved_is_nan(view, asset, step, col);
}

/// Where an instrument is not observed at a step, every cell of the step is
/// a not-a-number and the return is zero.
pub proof fn lemma_unobserved_is_nan(view: ExchangeView, asset: int, step: int, col: int)
    requires
        view.wf(),
        view.has_cell(asset, step, col),
        !view.is_observed(asset, step),
    ensures
        view.value(asset, step, col) == NAN_BITS,
        view.aligned[asset][step * view.cols() + col] == NAN_BITS,
        is_nan_bits(view.aligned[asset][step * view.cols() + col]),
        view.step_return(asset, step) == StepReturn::Zero,
{
    lemma_aligned_layout(view, asset, step, col);
    lemma_sentinel_is_nan();
}

/// Where an instrument is observed at a step and at the step before it, its
/// return at the step is taken over the close that the matrix holds for the
/// step before and the close that it holds for the step: it is zero where the
/// close before is zero, and else the change between the two.
pub proof fn lemma_return_over_consecutive_steps(view: ExchangeView, asset: int, step: int)
    requires
        view.wf(),
        0 <= asset < view.assets.len(),
        0 < step < view.timeline.len(),
        view.is_observed(asset, step - 1),
        view.is_observed(asset, step),
    ensures
        view.step_return(asset, step) == return_over(
            view.aligned[asset][(step - 1) * view.cols() + view.close_index],
            view.aligned[asset][step * view.cols() + view.close_index],
        ),
        is_zero_bits(view.aligned[asset][(step - 1) * view.cols() + view.close_index])
            ==> view.step_return(asset, step) == StepReturn::Zero,
        !is_zero_bits(view.aligned[asset][(step - 1) * view.cols() + view.close_index])
            ==> view.step_return(asset, step) == (StepReturn::Change {
            previous: view.aligned[asset][(step - 1) * view.cols() + view.close_index],
            current: view.aligned[asset][step * view.cols() + view.close_index],
        }),
{
    let series = view.assets[asset];
    let before = observed_row(series.timestamps, view.timeline[step - 1])->Some_0;
    let row = observed_row(series.timestamps, view.timeline[step])->Some_0;
    assert(is_observed_row(series.timestamps, view.timeline[step - 1], before));
    assert(is_observed_row(series.timestamps, view.timeline[step], row));
    let offset = lemma_series_offset(view, asset);
    assert(view.timeline[offset + before] == series.timestamps[before]);
    assert(view.timeline[offset + row] == series.timestamps[row]);
    lemma_increasing_is_injective(view.timeline, offset + before, step - 1);
    lemma_increasing_is_injective(view.timeline, offset + row, step);
    assert(before == row - 1);
    assert(view.assets[0].wf());
    lemma_aligned_layout(view, asset, step, view.close_index);
    lemma_aligned_layout(view, asset, step - 1, view.close_index);
}

/// At the first step at which an instrument is observed its return is zero.
pub proof fn lemma_first_step_has_zero_return(view: ExchangeView, asset: int, step: int)
    requires
        view.wf(),
        0 <= asset < view.assets.len(),
        0 <= step < view.timeline.len(),
        view.is_observed(asset, step),
        step == 0 || !view.is_observed(asset, step - 1),
    ensures
        view.step_return(asset, step) == StepReturn::Zero,
{
    let series = view.assets[asset];
    let row = observed_row(series.timestamps, view.timeline[step])->Some_0;
    assert(is_observed_row(series.timestamps, view.timeline[step], row));
    if row > 0 {
        let offset = lemma_series_offset(view, asset);
        assert(view.timeline[offset + row] == series.timestamps[row]);
        assert(view.timeline[offset + (row - 1)] == series.timestamps[row - 1]);
        lemma_increasing_is_injective(view.timeline, offset + row, step);
        assert(is_observed_row(series.timestamps, view.timeline[step - 1], row - 1));
        lemma_observed_row_is(series.timestamps, view.timeline[step - 1], row - 1);
        assert(false);
    }
}

/// Two collections built from the same instruments have the same timeline,
/// the same columns and close column, the same matrix and the same returns.
pub proof fn lemma_rebuild_identical(first: ExchangeView, second: ExchangeView)
    requires
        first.wf(),
        second.wf(),
        first.assets == second.assets,
    ensures
        first.timeline == second.timeline,
        first.columns == second.columns,
        first.close_index == second.close_index,
        first.aligned == second.aligned,
        forall|asset: int, step: int|
            #[trigger] first.step_return(asset, step) == second.step_return(asset, step),
{
    if first.close_index < second.close_index {
        assert(!is_close_name(second.columns[first.close_index]));
    } else if second.close_index < first.close_index {
        assert(!is_close_name(first.columns[second.close_index]));
    }
}

/// The parser answers by the text of a cell alone: for one text it has one
/// answer.
pub open spec fn parses_by_text<F: Fn(&String) -> Option<u64>>(parse: F) -> bool {
    forall|a: String, b: String, x: Option<u64>, y: Option<u64>|
        a@ == b@ && #[trigger] call_ensures(parse, (&a,), x) && #[trigger] call_ensures(
            parse,
            (&b,),
            y,
        ) ==> x == y
}

/// Records with the same texts have the same shape and the same text in each
/// cell.
proof fn lemma_records_agree(left: Seq<Vec<String>>, right: Seq<Vec<String>>)
    requires
        records_text(left) == records_text(right),
    ensures
        left.len() == right.len(),
        forall|r: int| 0 <= r < left.len() ==> (#[trigger] left[r])@.len() == right[r]@.len(),
        forall|r: int, c: int|
            0 <= r < left.len() && 0 <= c < left[r]@.len() ==> (#[trigger] left[r]@[c])@
                == right[r]@[c]@,
{
    assert(left.len() == right.len()) by {
        assert(records_text(left).len() == left.len());
        assert(records_text(right).len() == right.len());
    }
    assert forall|r: int| 0 <= r < left.len() implies (#[trigger] left[r])@.len()
        == right[r]@.len() by {
        assert(records_text(left)[r] == texts(left[r]@));
        assert(records_text(right)[r] == texts(right[r]@));
    }
    assert forall|r: int, c: int| 0 <= r < left.len() && 0 <= c < left[r]@.len() implies (
    #[trigger] left[r]@[c])@ == right[r]@[c]@ by {
        assert(records_text(left)[r] == texts(left[r]@));
        assert(records_text(right)[r] == texts(right[r]@));
        assert(texts(left[r]@)[c] == left[r]@[c]@);
        assert(texts(right[r]@)[c] == right[r]@[c]@);
    }
}

/// Two instruments read from the same records, with a parser that answers by
/// the text alone, hold the same.
proof fn lemma_ingest_identical<F: Fn(&String) -> Option<u64>>(
    first: AssetView,
    second: AssetView,
    id: usize,
    datetime_format: Seq<char>,
    name: Seq<char>,
    path: Seq<char>,
    left: Seq<Vec<String>>,
    right: Seq<Vec<String>>,
    parse: F,
)
    requires
        parses_by_text(parse),
        records_text(left) == records_text(right),
        ingested(first, id, datetime_format, name, path, left, parse),
        ingested(second, id, datetime_format, name, path, right, parse),
        is_table(left),
        is_table(right),
    ensures
        first == second,
{
    lemma_records_agree(left, right);
    let rows = first.timestamps.len() as int;
    let cols = first.cols as int;
    assert(second.cols == cols);
    assert(second.timestamps.len() == rows);
    assert forall|k: int| 0 <= k < rows implies first.timestamps[k] == second.timestamps[k] by {
        let r = k + 1;
        assert(left[r]@[0]@ == right[r]@[0]@) by {
            assert(records_text(left)[r] == texts(left[r]@));
            assert(records_text(right)[r] == texts(right[r]@));
            assert(texts(left[r]@)[0] == left[r]@[0]@);
            assert(texts(right[r]@)[0] == right[r]@[0]@);
            assert(left[r]@.len() >= 0);
        }
    }
    assert(first.timestamps =~= second.timestamps);
    assert forall|c: int| 0 <= c < cols implies first.headers[c] == second.headers[c] by {
        assert(first.headers[(c + 1) - 1] == left[0]@[c + 1]@);
        assert(second.headers[(c + 1) - 1] == right[0]@[c + 1]@);
    }
    assert(first.headers =~= second.headers);
    assert(first.data.len() == rows * cols);
    assert(second.data.len() == rows * cols);
    assert forall|j: int| 0 <= j < rows * cols implies first.data[j] == second.data[j] by {
        if cols > 0 {
            lemma_cell_place(j, rows, cols);
            let r = j / cols + 1;
            let c = j % cols + 1;
            assert(call_ensures(parse, (&left[r]@[c],), Some(first.cell(r - 1, c - 1))));
            assert(call_ensures(parse, (&right[r]@[c],), Some(second.cell(r - 1, c - 1))));
            assert(records_text(left)[r] == texts(left[r]@));
            assert(records_text(right)[r] == texts(right[r]@));
            assert(left[r]@.len() == left[0]@.len());
            assert(left[r]@[c]@ == right[r]@[c]@);
        } else {
            assert(rows * cols == 0) by (nonlinear_arith)
                requires
                    cols == 0,
            ;
        }
    }
    assert(first.data =~= second.data);
}

/// Two instruments read from the same bytes, with a parser that answers by the
/// text alone, hold the same.
pub proof fn lemma_read_identical<F: Fn(&String) -> Option<u64>>(
    first: Asset,
    second: Asset,
    id: usize,
    datetime_format: Seq<char>,
    name: Seq<char>,
    path: Seq<char>,
    content: Seq<u8>,
    parse: F,
)
    requires
        parses_by_text(parse),
        read_outcome(Ok(first), id, datetime_format, name, path, content, parse),
        read_outcome(Ok(second), id, datetime_format, name, path, content, parse),
    ensures
        first@ == second@,
{
    let text = csv_records(content)->Some_0;
    let left = choose|records: Vec<Vec<String>>|
        records_text(records@) == text && #[trigger] ingest_outcome(
            Ok(first),
            id,
            datetime_format,
            name,
            path,
            records@,
            parse,
        );
    let right = choose|records: Vec<Vec<String>>|
        records_text(records@) == text && #[trigger] ingest_outcome(
            Ok(second),
            id,
            datetime_format,
            name,
            path,
            records@,
            parse,
        );
    lemma_ingest_identical(
        first@,
        second@,
        id,
        datetime_format,
        name,
        path,
        left@,
        right@,
        parse,
    );
}

/// Building twice from the same files, with a parser that answers by the text
/// alone, gives the same collection: the same instruments, timeline, columns,
/// matrix and returns.
pub proof fn lemma_rebuild_from_files_identical<F: Fn(&String) -> Option<u64>>(
    first: Exchange,
    second: Exchange,
    name: Seq<char>,
    source: Seq<char>,
    datetime_format: Seq<char>,
    files: Seq<SourceFile>,
    parse: F,
)
    requires
        parses_by_text(parse),
        built_outcome(Ok(first), name, source, datetime_format, files, parse),
        built_outcome(Ok(second), name, source, datetime_format, files, parse),
    ensures
        first@.assets == second@.assets,
        first@.timeline == second@.timeline,
        first@.columns == second@.columns,
        first@.close_index == second@.close_index,
        first@.aligned == second@.aligned,
        forall|asset: int, step: int|
            #[trigger] first@.step_return(asset, step) == second@.step_return(asset, step),
        first@ == second@,
{
    let left = choose|assets: Vec<Asset>|
        first@.assets == asset_views(assets@) && #[trigger] all_read(
            assets@,
            datetime_format,
            files,
            parse,
        );
    let right = choose|assets: Vec<Asset>|
        second@.assets == asset_views(assets@) && #[trigger] all_read(
            assets@,
            datetime_format,
            files,
            parse,
        );
    lemma_all_read_identical(left@, right@, datetime_format, files, parse);
    lemma_rebuild_identical(first@, second@);
}

/// Instruments read twice from the same files, with a parser that answers by
/// the text alone, hold the same.
proof fn lemma_all_read_identical<F: Fn(&String) -> Option<u64>>(
    left: Seq<Asset>,
    right: Seq<Asset>,
    datetime_format: Seq<char>,
    files: Seq<SourceFile>,
    parse: F,
)
    requires
        parses_by_text(parse),
        all_read(left, datetime_format, files, parse),
        all_read(right, datetime_format, files, parse),
    ensures
        asset_views(left) == asset_views(right),
{
    assert forall|i: int| 0 <= i < files.len() implies left[i]@ == right[i]@ by {
        let file = files[file_order(files)[i]];
        assert(file_outcome(Ok(left[i]), i as usize, datetime_format, file, parse));
        assert(file_outcome(Ok(right[i]), i as usize, datetime_format, file, parse));
        lemma_read_identical(
            left[i],
            right[i],
            i as usize,
            datetime_format,
            stem_of(file.file_name@),
            file.path@,
            file.content@,
            parse,
        );
    }
    assert(asset_views(left) =~= asset_views(right));
}

/// A file that was read once, with a parser that answers by the text alone, is
/// not refused when it is read again.
proof fn lemma_reread_succeeds<F: Fn(&String) -> Option<u64>>(
    asset: Asset,
    second: AtlasResult<Asset>,
    id: usize,
    datetime_format: Seq<char>,
    name: Seq<char>,
    path: Seq<char>,
    content: Seq<u8>,
    parse: F,
)
    requires
        parses_by_text(parse),
        read_outcome(Ok(asset), id, datetime_format, name, path, content, parse),
        read_outcome(second, id, datetime_format, name, path, content, parse),
    ensures
        second is Ok,
{
    if let Err(error) = second {
        let text = csv_records(content)->Some_0;
        let good = choose|records: Vec<Vec<String>>|
            records_text(records@) == text && #[trigger] ingest_outcome(
                Ok(asset),
                id,
                datetime_format,
                name,
                path,
                records@,
                parse,
            );
        let bad = choose|records: Vec<Vec<String>>|
            records_text(records@) == text && #[trigger] ingest_outcome(
                Err(error),
                id,
                datetime_format,
                name,
                path,
                records@,
                parse,
            );
        let left = good@;
        let right = bad@;
        lemma_records_agree(left, right);
        assert(is_table(left) && stamps_parse(left, datetime_format));
        assert(right[0]@.len() == left[0]@.len());
        assert forall|r: int| 1 <= r < right.len() implies epoch_seconds(
            (#[trigger] right[r])@[0]@,
            datetime_format,
        ) is Some by {
            assert(left[r]@.len() == left[0]@.len());
            assert(left[r]@[0]@ == right[r]@[0]@);
        }
        assert(stamps_parse(right, datetime_format));
        let fault = choose|fault: TableFault| #[trigger] has_table_fault(right, parse, fault);
        match fault {
            TableFault::NoRows => {},
            TableFault::NoHeader => {},
            TableFault::RowWidth => {
                let r = choose|r: int|
                    0 <= r < right.len() && (#[trigger] right[r])@.len() != right[0]@.len();
                assert(left[r]@.len() == left[0]@.len());
            },
            TableFault::Cell => {
                let (r, c) = choose|r: int, c: int|
                    1 <= r < right.len() && 1 <= c < right[r]@.len() && call_ensures(
                        parse,
                        (&#[trigger] right[r]@[c],),
                        None,
                    );
                assert(left[r]@.len() == left[0]@.len());
                assert(call_ensures(parse, (&left[r]@[c],), Some(asset@.cell(r - 1, c - 1))));
                assert(left[r]@[c]@ == right[r]@[c]@);
            },
        }
    }
}

/// Where a collection was built from the files of a source, with a parser
/// that answers by the text alone, building from the same files again does not
/// fail.
pub proof fn lemma_rebuild_succeeds<F: Fn(&String) -> Option<u64>>(
    first: Exchange,
    second: AtlasResult<Exchange>,
    name: Seq<char>,
    source: Seq<char>,
    datetime_format: Seq<char>,
    files: Seq<SourceFile>,
    parse: F,
)
    requires
        parses_by_text(parse),
        built_outcome(Ok(first), name, source, datetime_format, files, parse),
        built_outcome(second, name, source, datetime_format, files, parse),
    ensures
        second is Ok,
{
    if let Err(error) = second {
        let read = choose|assets: Vec<Asset>|
            first@.assets == asset_views(assets@) && #[trigger] all_read(
                assets@,
                datetime_format,
                files,
                parse,
            );
        if exists|k: int| #[trigger] read_failed(error, k, datetime_format, files, parse) {
            let k = choose|k: int| #[trigger]
                read_failed(error, k, datetime_format, files, parse);
            let file = files[file_order(files)[k]];
            assert(file_outcome(Ok(read@[k]), k as usize, datetime_format, file, parse));
            lemma_reread_succeeds(
                read@[k],
                Err(error),
                k as usize,
                datetime_format,
                stem_of(file.file_name@),
                file.path@,
                file.content@,
                parse,
            );
        } else {
            let again = choose|assets: Vec<Asset>|
                assemble_error(error, asset_views(assets@)) && #[trigger] all_read(
                    assets@,
                    datetime_format,
                    files,
                    parse,
                );
            lemma_all_read_identical(read@, again@, datetime_format, files, parse);
        }
    }
}

/// What is known of an instrument that was read from the bytes of a table: its
/// number, its name and where it was read from.
proof fn lemma_read_names<F: Fn(&String) -> Option<u64>>(
    asset: Asset,
    id: usize,
    datetime_format: Seq<char>,
    name: Seq<char>,
    path: Seq<char>,
    content: Seq<u8>,
    parse: F,
)
    requires
        read_outcome(Ok(asset), id, datetime_format, name, path, content, parse),
    ensures
        asset@.id == id,
        asset@.name == name,
        asset@.source == Some(path),
{
    let text = csv_records(content)->Some_0;
    let records = choose|records: Vec<Vec<String>>|
        records_text(records@) == text && #[trigger] ingest_outcome(
            Ok(asset),
            id,
            datetime_format,
            name,
            path,
            records@,
            parse,
        );
    assert(ingested(asset@, id, datetime_format, name, path, records@, parse));
}

/// In a collection built from the files of a source the numbers follow the
/// names: each instrument has the stem of its file as its name, an instrument
/// whose name comes before that of another in dictionary order has the
/// smaller number, and of two instruments of one name the one whose file was
/// given first has the smaller number.
pub proof fn lemma_numbers_follow_names<F: Fn(&String) -> Option<u64>>(
    exchange: Exchange,
    name: Seq<char>,
    source: Seq<char>,
    datetime_format: Seq<char>,
    files: Seq<SourceFile>,
    parse: F,
    k: int,
    l: int,
)
    requires
        built_outcome(Ok(exchange), name, source, datetime_format, files, parse),
        0 <= k < files.len(),
        0 <= l < files.len(),
    ensures
        exchange@.assets.len() == files.len(),
        0 <= file_order(files)[k] < files.len(),
        0 <= file_order(files)[l] < files.len(),
        exchange@.assets[k].id == k,
        exchange@.assets[k].name == stem_of(files[file_order(files)[k]].file_name@),
        exchange@.assets[l].name == stem_of(files[file_order(files)[l]].file_name@),
        text_lt(exchange@.assets[k].name, exchange@.assets[l].name) ==> k < l,
        exchange@.assets[k].name == exchange@.assets[l].name && file_order(files)[k] < file_order(
            files,
        )[l] ==> k < l,
{
    let read = choose|assets: Vec<Asset>|
        exchange@.assets == asset_views(assets@) && #[trigger] all_read(
            assets@,
            datetime_format,
            files,
            parse,
        );
    let stems = stems_of(files);
    lemma_reading_order_holds_all(stems);
    lemma_reading_order_follows_stems(stems, k, l);
    lemma_reading_order_follows_stems(stems, l, k);
    lemma_reading_order_sorted(stems);
    let first = files[file_order(files)[k]];
    let second = files[file_order(files)[l]];
    assert(file_outcome(Ok(read@[k]), k as usize, datetime_format, first, parse));
    assert(file_outcome(Ok(read@[l]), l as usize, datetime_format, second, parse));
    lemma_read_names(
        read@[k],
        k as usize,
        datetime_format,
        stem_of(first.file_name@),
        first.path@,
        first.content@,
        parse,
    );
    lemma_read_names(
        read@[l],
        l as usize,
        datetime_format,
        stem_of(second.file_name@),
        second.path@,
        second.content@,
        parse,
    );
    assert(exchange@.assets[k] == read@[k]@);
    assert(exchange@.assets[l] == read@[l]@);
    if exchange@.assets[k].name == exchange@.assets[l].name && file_order(files)[k] < file_order(
        files,
    )[l] && l <= k {
        if l < k {
            assert(read_before(
                stems,
                file_order(files)[l],
                file_order(files)[k],
            ));
            lemma_text_lt_irreflexive(stems[file_order(files)[k]]);
        }
    }
}

} // verus!

//! The collection: instruments checked against each other and laid out on one
//! timeline.

use vstd::prelude::*;
use crate::exchange::asset::{asset_views, read_outcome, texts, Asset, AssetView};
use crate::exchange::model::{
    aligned_cell, aligned_matrix, aligned_row, all_wf, cursor_inv, cursor_matches, fault_message,
    fault_text, fits_memory, has_close, is_close_name, is_first_close, is_first_fault,
    lemma_cursor_step, lemma_timeline_increasing, observed_row, own_fault, return_at, timeline_of,
    valid_collection, Fault, StepReturn,
};
use crate::exchange::order::{ints, reading_order, reading_order_of};
use crate::standard::array::{
    contiguous_in, is_continuous_subset, is_run_at, sorted_union, strictly_increasing,
};
use crate::standard::error::AtlasError;
use crate::standard::types::{
    has_shape, is_zero, lemma_cell_index, matrix_cells, matrix_get, matrix_set, matrix_zeros,
    AtlasResult, CellMatrix, NAN_BITS,
};

verus! {

/// The steps of the timeline at which an instrument is observed: `len` steps
/// from `start` on.
struct Span {
    start: usize,
    len: usize,
}

/// The row that an instrument with the span `span` shows at `step`.
spec fn span_row(span: Span, step: int) -> Option<int> {
    if span.start <= step < span.start + span.len {
        Some(step - span.start)
    } else {
        None
    }
}

/// One file of a source directory, as it was read.
#[derive(Debug)]
pub struct SourceFile {
    /// The name of the file, without its directory.
    pub file_name: String,
    /// Where the file lies.
    pub path: String,
    /// The bytes of the file.
    pub content: Vec<u8>,
}

/// `len` is the number of characters in `name` before its first dot, or the
/// length of `name` where it has no dot.
pub open spec fn is_stem_len(name: Seq<char>, len: int) -> bool {
    &&& 0 <= len <= name.len()
    &&& len == name.len() || name[len] == '.'
    &&& forall|j: int| 0 <= j < len ==> name[j] != '.'
}

/// The name of a file up to its first dot.
pub open spec fn stem_of(name: Seq<char>) -> Seq<char> {
    name.take(choose|len: int| is_stem_len(name, len))
}

/// The name of a file up to its first dot: the name of the instrument that
/// the file holds.
pub fn file_stem(file_name: &str) -> (stem: String)
    ensures
        stem@ == stem_of(file_name@),
{
    let len = file_name.unicode_len();
    let mut k: usize = 0;
    while k < len && file_name.get_char(k) != '.'
        invariant
            k <= len,
            len == file_name@.len(),
            forall|j: int| 0 <= j < k ==> file_name@[j] != '.',
        decreases len - k,
    {
        k += 1;
    }
    proof {
        assert(is_stem_len(file_name@, k as int));
        let chosen = choose|n: int| is_stem_len(file_name@, n);
        assert(chosen == k) by {
            if chosen < k {
                assert(file_name@[chosen] != '.');
            } else if k < chosen {
                assert(file_name@[k as int] != '.');
            }
        }
    }
    String::from_str(file_name.substring_char(0, k))
}

/// The stems of the files of a source.
pub open spec fn stems_of(files: Seq<SourceFile>) -> Seq<Seq<char>> {
    Seq::new(files.len(), |i: int| stem_of(files[i].file_name@))
}

/// The order in which the files of a source are read, which numbers the
/// instruments: by stem in dictionary order, and files of one stem in the
/// order in which they were given. Entry `k` is the file that instrument `k`
/// is read from.
pub open spec fn file_order(files: Seq<SourceFile>) -> Seq<int> {
    reading_order(stems_of(files))
}

/// What reading a file of a source into instrument number `id` may come to.
pub open spec fn file_outcome<F: Fn(&String) -> Option<u64>>(
    outcome: AtlasResult<Asset>,
    id: usize,
    datetime_format: Seq<char>,
    file: SourceFile,
    parse: F,
) -> bool {
    read_outcome(
        outcome,
        id,
        datetime_format,
        stem_of(file.file_name@),
        file.path@,
        file.content@,
        parse,
    )
}

/// Every file of the source was read, in the reading order: instrument `k`
/// holds the file that stands at `k` in that order.
pub open spec fn all_read<F: Fn(&String) -> Option<u64>>(
    assets: Seq<Asset>,
    datetime_format: Seq<char>,
    files: Seq<SourceFile>,
    parse: F,
) -> bool {
    &&& assets.len() == files.len()
    &&& forall|k: int|
        0 <= k < files.len() ==> file_outcome(
            Ok(#[trigger] assets[k]),
            k as usize,
            datetime_format,
            files[file_order(files)[k]],
            parse,
        )
}

/// The error is that of the file that stands at `k` in the reading order,
/// which could not be read into instrument `k`.
pub open spec fn read_failed<F: Fn(&String) -> Option<u64>>(
    error: AtlasError,
    k: int,
    datetime_format: Seq<char>,
    files: Seq<SourceFile>,
    parse: F,
) -> bool {
    &&& 0 <= k < files.len()
    &&& file_outcome(Err(error), k as usize, datetime_format, files[file_order(files)[k]], parse)
}

/// Why instruments that were read are not assembled: a consistency error where
/// they do not fit together, and else a configuration error, which comes only
/// where their aligned matrix does not fit in memory.
pub open spec fn assemble_error(error: AtlasError, assets: Seq<AssetView>) -> bool {
    if !valid_collection(assets) {
        consistency_error(error, assets)
    } else {
        &&& error is ConfigurationError
        &&& error.msg() == "the aligned matrix does not fit in memory"@
        &&& !fits_memory(assets)
    }
}

/// The error is a consistency error that tells the first fault of the
/// instruments and names the instrument that has it.
pub open spec fn consistency_error(error: AtlasError, assets: Seq<AssetView>) -> bool {
    &&& error is ConsistencyError
    &&& exists|i: int, fault: Fault| #[trigger]
        is_first_fault(assets, i, fault) && error.msg() == fault_message(assets, i, fault)
}

/// The consistency error for `fault` of `asset`.
fn fault_error(fault: Fault, asset: &Asset) -> (error: AtlasError)
    ensures
        error is ConsistencyError,
        error.msg() == fault_text(fault) + ": "@ + asset@.name,
{
    let text = match fault {
        Fault::WrongNumber => "asset id is not its place in the exchange",
        Fault::MissingClose => "close header not found in exchange",
        Fault::ColumnsDiffer => "asset headers do not match those of the exchange",
        Fault::NotIncreasing => "asset timestamps are not in ascending order",
        Fault::NotContiguous =>
            "asset timestamps are not a contiguous subset of exchange timestamps",
    };
    AtlasError::ConsistencyError {
        msg: String::from_str(text).concat(": ").concat(asset.get_name()),
    }
}

/// What building a collection from the files of a source may come to. With no
/// file it is a configuration error. A collection that is built holds the
/// instruments that the files were read into, numbered in the reading order of
/// the files; it is well formed and fits in memory. Any other error is that of
/// a file that could not be read, or says why the instruments that were read
/// are not assembled.
pub open spec fn built_outcome<F: Fn(&String) -> Option<u64>>(
    outcome: AtlasResult<Exchange>,
    name: Seq<char>,
    source: Seq<char>,
    datetime_format: Seq<char>,
    files: Seq<SourceFile>,
    parse: F,
) -> bool {
    match outcome {
        Ok(exchange) => {
            &&& files.len() > 0
            &&& exchange@.wf()
            &&& fits_memory(exchange@.assets)
            &&& exchange@.name == name
            &&& exchange@.source == source
            &&& exchange@.datetime_format == datetime_format
            &&& exists|assets: Vec<Asset>|
                exchange@.assets == asset_views(assets@) && #[trigger] all_read(
                    assets@,
                    datetime_format,
                    files,
                    parse,
                )
        },
        Err(error) => if files.len() == 0 {
            error is ConfigurationError && error.msg() == "no assets found in exchange"@
        } else {
            ||| exists|k: int| #[trigger] read_failed(error, k, datetime_format, files, parse)
            ||| exists|assets: Vec<Asset>|
                assemble_error(error, asset_views(assets@)) && #[trigger] all_read(
                    assets@,
                    datetime_format,
                    files,
                    parse,
                )
        },
    }
}

/// Instrument `index` has the name `name`, and none after it has.
pub open spec fn is_last_named(assets: Seq<AssetView>, name: Seq<char>, index: int) -> bool {
    &&& 0 <= index < assets.len()
    &&& assets[index].name == name
    &&& forall|j: int| index < j < assets.len() ==> (#[trigger] assets[j]).name != name
}

/// Tells whether the name is `close`, in any mix of upper and lower case.
pub fn is_close_header(name: &str) -> (close: bool)
    ensures
        close == is_close_name(name@),
{
    if name.unicode_len() != 5 {
        return false;
    }
    let c0 = name.get_char(0);
    let c1 = name.get_char(1);
    let c2 = name.get_char(2);
    let c3 = name.get_char(3);
    let c4 = name.get_char(4);
    (c0 == 'c' || c0 == 'C') && (c1 == 'l' || c1 == 'L') && (c2 == 'o' || c2 == 'O') && (c3 == 's'
        || c3 == 'S') && (c4 == 'e' || c4 == 'E')
}

/// The first column that is named `close`, if there is one.
fn find_close(headers: &Vec<String>) -> (found: Option<usize>)
    ensures
        match found {
            Some(index) => is_first_close(texts(headers@), index as int),
            None => !has_close(texts(headers@)),
        },
{
    let mut i: usize = 0;
    while i < headers.len()
        invariant
            i <= headers.len(),
            forall|k: int| 0 <= k < i ==> !is_close_name(#[trigger] texts(headers@)[k]),
        decreases headers.len() - i,
    {
        if is_close_header(headers[i].as_str()) {
            return Some(i);
        }
        i += 1;
    }
    None
}

/// Tells whether two lists of column names are the same, name by name.
fn same_headers(left: &Vec<String>, right: &Vec<String>) -> (same: bool)
    ensures
        same == (texts(left@) == texts(right@)),
{
    if left.len() != right.len() {
        assert(texts(left@).len() != texts(right@).len());
        return false;
    }
    let mut i: usize = 0;
    while i < left.len()
        invariant
            i <= left.len(),
            left.len() == right.len(),
            forall|k: int| 0 <= k < i ==> left@[k]@ == right@[k]@,
        decreases left.len() - i,
    {
        if left[i] != right[i] {
            assert(texts(left@)[i as int] != texts(right@)[i as int]);
            return false;
        }
        i += 1;
    }
    assert(texts(left@) =~= texts(right@));
    true
}

/// Tells whether each timestamp is greater than the one before it.
fn is_increasing(timestamps: &Vec<i64>) -> (increasing: bool)
    ensures
        increasing == strictly_increasing(timestamps@),
{
    let mut i: usize = 1;
    while i < timestamps.len()
        invariant
            1 <= i,
            forall|a: int, b: int| 0 <= a < b < i && b < timestamps.len() ==> timestamps@[a]
                < timestamps@[b],
        decreases timestamps.len() - i,
    {
        if timestamps[i] <= timestamps[i - 1] {
            return false;
        }
        assert forall|a: int, b: int| 0 <= a < b < i + 1 && b < timestamps.len() implies timestamps@[a]
            < timestamps@[b] by {
            if b == i && a < i - 1 {
                assert(timestamps@[a] < timestamps@[i - 1]);
            }
        }
        i += 1;
    }
    true
}

/// A collection of instruments on one timeline.
pub struct Exchange {
    name: String,
    source: String,
    datetime_format: String,
    assets: Vec<Asset>,
    timestamps: Vec<i64>,
    data: CellMatrix,
    spans: Vec<Span>,
    col_count: usize,
    close_index: usize,
}

/// What an `Exchange` holds, as mathematical values.
#[verifier::ext_equal]
pub struct ExchangeView {
    pub name: Seq<char>,
    pub source: Seq<char>,
    pub datetime_format: Seq<char>,
    pub assets: Seq<AssetView>,
    pub columns: Seq<Seq<char>>,
    pub close_index: int,
    pub timeline: Seq<i64>,
    pub aligned: Seq<Seq<u64>>,
}

impl ExchangeView {
    /// The instruments fit together, the columns are those of the first
    /// instrument, the close column is the first of that name, the timeline
    /// is the merge of all timestamps, and the matrix holds every instrument
    /// aligned on the timeline.
    pub open spec fn wf(self) -> bool {
        &&& all_wf(self.assets)
        &&& valid_collection(self.assets)
        &&& self.columns == self.assets[0].headers
        &&& is_first_close(self.columns, self.close_index)
        &&& self.timeline == timeline_of(self.assets)
        &&& self.aligned == aligned_matrix(self.assets, self.timeline)
    }

    /// The value of instrument `asset` at step `step` in column `col`.
    pub open spec fn value(self, asset: int, step: int, col: int) -> u64 {
        aligned_cell(self.assets[asset], self.timeline[step], col)
    }

    /// The return of instrument `asset` at step `step`.
    pub open spec fn step_return(self, asset: int, step: int) -> StepReturn {
        return_at(self.assets[asset], self.close_index, self.timeline[step])
    }
}

impl View for Exchange {
    type V = ExchangeView;

    closed spec fn view(&self) -> ExchangeView {
        ExchangeView {
            name: self.name@,
            source: self.source@,
            datetime_format: self.datetime_format@,
            assets: asset_views(self.assets@),
            columns: asset_views(self.assets@)[0].headers,
            close_index: self.close_index as int,
            timeline: self.timestamps@,
            aligned: matrix_cells(self.data),
        }
    }
}

impl Exchange {
    #[verifier::type_invariant]
    spec fn inv(self) -> bool {
        &&& self@.wf()
        &&& self.col_count == self@.assets[0].cols
        &&& self.timestamps@.len() * self.col_count <= usize::MAX
        &&& has_shape(self.data, self.assets@.len() as int, self.timestamps@.len() * self.col_count)
        &&& self.spans@.len() == self.assets@.len()
        &&& forall|i: int, step: int|
            0 <= i < self.assets@.len() && 0 <= step < self.timestamps@.len() ==> observed_row(
                self@.assets[i].timestamps,
                #[trigger] self.timestamps@[step],
            ) == span_row(#[trigger] self.spans@[i], step)
    }

    /// Builds the collection from the files of a source directory. Each file
    /// holds one instrument, named by the file's name up to its first dot. The
    /// instruments are numbered by name in dictionary order, and those of one
    /// name in the order of their files; then they are assembled as
    /// `from_assets` does. `parse_cell` turns the text of a numeric cell into
    /// the bits of its number, or refuses it.
    pub fn new<F: Fn(&String) -> Option<u64>>(
        name: &str,
        source: &str,
        datetime_format: &str,
        files: &Vec<SourceFile>,
        parse_cell: &F,
    ) -> (outcome: AtlasResult<Exchange>)
        requires
            forall|text: &String| call_requires(*parse_cell, (text,)),
        ensures
            built_outcome(outcome, name@, source@, datetime_format@, files@, *parse_cell),
    {
        let assets = match Exchange::init(datetime_format, files, parse_cell) {
            Ok(assets) => assets,
            Err(error) => {
                return Err(error);
            },
        };
        let ghost read = assets;
        let outcome = Exchange::from_assets(name, source, datetime_format, assets);
        proof {
            assert(all_read(read@, datetime_format@, files@, *parse_cell));
        }
        outcome
    }

    /// Assembles the collection from instruments that were read. The
    /// instruments are checked against each other, their timestamps are merged
    /// into the timeline, and every instrument is laid out on it.
    pub fn from_assets(name: &str, source: &str, datetime_format: &str, assets: Vec<Asset>) -> (outcome:
        AtlasResult<Exchange>)
        ensures
            match outcome {
                Ok(exchange) => {
                    &&& valid_collection(asset_views(assets@))
                    &&& fits_memory(asset_views(assets@))
                    &&& exchange@.wf()
                    &&& exchange@.assets == asset_views(assets@)
                    &&& exchange@.name == name@
                    &&& exchange@.source == source@
                    &&& exchange@.datetime_format == datetime_format@
                },
                Err(error) => if assets.len() == 0 {
                    error is ConfigurationError && error.msg() == "no assets found in exchange"@
                } else {
                    assemble_error(error, asset_views(assets@))
                },
            },
    {
        if assets.len() == 0 {
            return Err(AtlasError::configuration("no assets found in exchange"));
        }
        let (close_index, timestamps) = match Exchange::validate(&assets) {
            Ok(checked) => checked,
            Err(error) => {
                return Err(error);
            },
        };
        let col_count = assets[0].get_cols();
        let ghost views = asset_views(assets@);
        let fits = match timestamps.len().checked_mul(col_count) {
            Some(width) => match assets.len().checked_mul(width) {
                Some(cells) => match cells.checked_mul(8) {
                    Some(bytes) => bytes <= isize::MAX as usize,
                    None => false,
                },
                None => false,
            },
            None => false,
        };
        proof {
            let count = assets.len() as int;
            let width = timestamps.len() * col_count;
            assert(views[0].cols == col_count);
            assert(fits_memory(views) == (count * width * 8 <= isize::MAX));
            assert(count * width >= width && count * width * 8 >= count * width)
                by (nonlinear_arith)
                requires
                    count >= 1,
                    width >= 0,
            ;
        }
        if !fits {
            return Err(
                AtlasError::configuration("the aligned matrix does not fit in memory"),
            );
        }
        let (data, spans) = Exchange::build(&assets, &timestamps, col_count);
        Ok(
            Exchange {
                name: String::from_str(name),
                source: String::from_str(source),
                datetime_format: String::from_str(datetime_format),
                assets,
                timestamps,
                data,
                spans,
                col_count,
                close_index,
            },
        )
    }

    /// Reads every file of a source into an instrument. The files are read by
    /// stem in dictionary order, files of one stem in the order in which they
    /// were given; the instruments are numbered as they are read, and each is
    /// named by the stem of its file.
    fn init<F: Fn(&String) -> Option<u64>>(
        datetime_format: &str,
        files: &Vec<SourceFile>,
        parse_cell: &F,
    ) -> (outcome: AtlasResult<Vec<Asset>>)
        requires
            forall|text: &String| call_requires(*parse_cell, (text,)),
        ensures
            match outcome {
                Ok(assets) => files.len() > 0 && all_read(
                    assets@,
                    datetime_format@,
                    files@,
                    *parse_cell,
                ),
                Err(error) => if files.len() == 0 {
                    error is ConfigurationError && error.msg() == "no assets found in exchange"@
                } else {
                    exists|k: int| #[trigger]
                        read_failed(error, k, datetime_format@, files@, *parse_cell)
                },
            },
    {
        let mut stems: Vec<String> = Vec::new();
        let mut i: usize = 0;
        while i < files.len()
            invariant
                i <= files.len(),
                stems@.len() == i,
                forall|k: int| 0 <= k < i ==> (#[trigger] stems@[k])@ == stem_of(
                    files@[k].file_name@,
                ),
            decreases files.len() - i,
        {
            stems.push(file_stem(files[i].file_name.as_str()));
            i += 1;
        }
        let order = reading_order_of(&stems);
        proof {
            assert(texts(stems@) =~= stems_of(files@));
        }
        let mut assets: Vec<Asset> = Vec::new();
        let mut k: usize = 0;
        while k < order.len()
            invariant
                k <= order.len(),
                order.len() == files.len(),
                stems@.len() == files.len(),
                assets@.len() == k,
                ints(order@) == file_order(files@),
                forall|j: int| 0 <= j < order.len() ==> #[trigger] order@[j] < files.len(),
                forall|j: int| 0 <= j < files.len() ==> (#[trigger] stems@[j])@ == stem_of(
                    files@[j].file_name@,
                ),
                forall|text: &String| call_requires(*parse_cell, (text,)),
                forall|j: int|
                    0 <= j < k ==> file_outcome(
                        Ok(#[trigger] assets@[j]),
                        j as usize,
                        datetime_format@,
                        files@[file_order(files@)[j]],
                        *parse_cell,
                    ),
            decreases order.len() - k,
        {
            let at = order[k];
            let file = &files[at];
            proof {
                assert(ints(order@)[k as int] == at);
            }
            let asset = match Asset::from_csv(
                k,
                datetime_format,
                stems[at].as_str(),
                file.path.as_str(),
                file.content.as_slice(),
                parse_cell,
            ) {
                Ok(asset) => asset,
                Err(error) => {
                    assert(read_failed(error, k as int, datetime_format@, files@, *parse_cell));
                    return Err(error);
                },
            };
            assets.push(asset);
            k += 1;
        }
        if assets.len() == 0 {
            return Err(AtlasError::configuration("no assets found in exchange"));
        }
        Ok(assets)
    }

    /// The timeline: every timestamp of every instrument, once, in
    /// increasing order.
    pub fn get_timestamps(&self) -> (timeline: &Vec<i64>)
        ensures
            timeline@ == self@.timeline,
            self@.wf(),
    {
        proof {
            use_type_invariant(self);
        }
        &self.timestamps
    }

    /// The instrument of the name `name`: the last of them, where several
    /// have it.
    pub fn get_asset(&self, name: &str) -> (found: Option<&Asset>)
        ensures
            match found {
                Some(asset) => exists|i: int|
                    #[trigger] is_last_named(self@.assets, name@, i) && asset@ == self@.assets[i],
                None => forall|i: int|
                    0 <= i < self@.assets.len() ==> (#[trigger] self@.assets[i]).name != name@,
            },
    {
        let mut i: usize = self.assets.len();
        while i > 0
            invariant
                i <= self.assets.len(),
                forall|j: int|
                    i <= j < self.assets@.len() ==> (#[trigger] asset_views(self.assets@)[j]).name
                        != name@,
            decreases i,
        {
            i -= 1;
            if self.assets[i].has_name(name) {
                assert(is_last_named(self@.assets, name@, i as int));
                return Some(&self.assets[i]);
            }
        }
        None
    }

    /// The name of the collection.
    pub fn get_name(&self) -> (name: &str)
        ensures
            name@ == self@.name,
    {
        self.name.as_str()
    }

    /// The directory that the collection was read from.
    pub fn get_source(&self) -> (source: &str)
        ensures
            source@ == self@.source,
    {
        self.source.as_str()
    }

    /// The format under which the timestamps were read.
    pub fn get_datetime_format(&self) -> (format: &str)
        ensures
            format@ == self@.datetime_format,
    {
        self.datetime_format.as_str()
    }

    /// The names of the columns, which every instrument shares; a column's
    /// place is its index.
    pub fn get_headers(&self) -> (headers: &Vec<String>)
        ensures
            texts(headers@) == self@.columns,
            self@.wf(),
    {
        proof {
            use_type_invariant(self);
        }
        self.assets[0].get_headers()
    }

    /// The index of the close column.
    pub fn get_close_index(&self) -> (index: usize)
        ensures
            index == self@.close_index,
            self@.wf(),
    {
        proof {
            use_type_invariant(self);
        }
        self.close_index
    }

    /// The instruments, each at the index of its number.
    pub fn get_assets(&self) -> (assets: &Vec<Asset>)
        ensures
            asset_views(assets@) == self@.assets,
            self@.wf(),
    {
        proof {
            use_type_invariant(self);
        }
        &self.assets
    }

    /// The value of instrument `asset_id` at step `step` of the timeline in
    /// column `column`, as a bit pattern; nothing where one of the three lies
    /// outside the collection.
    pub fn get_value(&self, asset_id: usize, step: usize, column: usize) -> (value: Option<u64>)
        ensures
            self@.wf(),
            value == if asset_id < self@.assets.len() && step < self@.timeline.len() && column
                < self@.columns.len() {
                Some(self@.value(asset_id as int, step as int, column as int))
            } else {
                None
            },
    {
        proof {
            use_type_invariant(self);
            assert(self@.assets[0].wf());
        }
        if asset_id < self.assets.len() && step < self.timestamps.len() && column
            < self.col_count {
            proof {
                self.lemma_block(asset_id as int, step as int, column as int);
            }
            Some(matrix_get(&self.data, asset_id, step * self.col_count + column))
        } else {
            None
        }
    }

    /// The return of instrument `asset_id` at step `step` of the timeline:
    /// zero where the instrument is not observed, where the step is its first,
    /// and where its close at the step before is zero, and else the two closes
    /// that the change is taken between. Nothing where one of the two
    /// arguments lies outside the collection.
    pub fn get_return(&self, asset_id: usize, step: usize) -> (change: Option<StepReturn>)
        ensures
            self@.wf(),
            change == if asset_id < self@.assets.len() && step < self@.timeline.len() {
                Some(self@.step_return(asset_id as int, step as int))
            } else {
                None
            },
    {
        proof {
            use_type_invariant(self);
            assert(self@.assets[0].wf());
        }
        if asset_id < self.assets.len() && step < self.timestamps.len() {
            let span = &self.spans[asset_id];
            let ghost asset = self@.assets[asset_id as int];
            proof {
                assert(observed_row(asset.timestamps, self.timestamps@[step as int]) == span_row(
                    self.spans@[asset_id as int],
                    step as int,
                ));
            }
            if span.start < step && step - span.start < span.len {
                proof {
                    assert(observed_row(asset.timestamps, self.timestamps@[step - 1]) == span_row(
                        self.spans@[asset_id as int],
                        step - 1,
                    ));
                    self.lemma_block(asset_id as int, step as int, self.close_index as int);
                    self.lemma_block(asset_id as int, step - 1, self.close_index as int);
                }
                let previous = matrix_get(
                    &self.data,
                    asset_id,
                    (step - 1) * self.col_count + self.close_index,
                );
                let current = matrix_get(
                    &self.data,
                    asset_id,
                    step * self.col_count + self.close_index,
                );
                if is_zero(previous) {
                    Some(StepReturn::Zero)
                } else {
                    Some(StepReturn::Change { previous, current })
                }
            } else {
                Some(StepReturn::Zero)
            }
        } else {
            None
        }
    }

    /// Where a value stands in the matrix, and that it is the aligned cell.
    proof fn lemma_block(self, asset: int, step: int, column: int)
        requires
            self.inv(),
            0 <= asset < self.assets@.len(),
            0 <= step < self.timestamps@.len(),
            0 <= column < self.col_count,
        ensures
            0 <= step * self.col_count <= step * self.col_count + column <= usize::MAX,
            0 <= step * self.col_count + column < self.timestamps@.len() * self.col_count,
            step * self.col_count + column < matrix_cells(self.data)[asset].len(),
            matrix_cells(self.data)[asset][step * self.col_count + column] == aligned_cell(
                self@.assets[asset],
                self.timestamps@[step],
                column,
            ),
    {
        lemma_cell_index(step, column, self.timestamps@.len() as int, self.col_count as int);
        assert(0 <= step * self.col_count) by (nonlinear_arith)
            requires
                0 <= step,
                0 <= self.col_count,
        ;
        let view = self@.assets[asset];
        assert(view.headers == self@.assets[0].headers);
        assert(view.wf() && self@.assets[0].wf());
        assert(view.cols == self.col_count);
        assert(matrix_cells(self.data)[asset] == aligned_row(view, self.timestamps@));
    }

    /// Checks the instruments against each other and merges their timestamps.
    /// The first instrument must have a close column, every other must have
    /// the columns of the first, the timestamps of each must increase strictly,
    /// and each series must be one unbroken run of the merged timeline. The
    /// result is the index of the close column and the timeline.
    fn validate(assets: &Vec<Asset>) -> (outcome: AtlasResult<(usize, Vec<i64>)>)
        requires
            assets.len() > 0,
        ensures
            match outcome {
                Ok((close, timeline)) => {
                    &&& all_wf(asset_views(assets@))
                    &&& valid_collection(asset_views(assets@))
                    &&& is_first_close(asset_views(assets@)[0].headers, close as int)
                    &&& timeline@ == timeline_of(asset_views(assets@))
                },
                Err(error) => {
                    &&& !valid_collection(asset_views(assets@))
                    &&& consistency_error(error, asset_views(assets@))
                },
            },
    {
        let ghost views = asset_views(assets@);
        let mut timeline: Vec<i64> = Vec::new();
        let mut close: usize = 0;
        let canonical = assets[0].get_headers();
        let mut i: usize = 0;
        proof {
            assert(views.take(0) =~= Seq::<AssetView>::empty());
        }
        while i < assets.len()
            invariant
                i <= assets.len(),
                assets.len() > 0,
                views == asset_views(assets@),
                texts(canonical@) == views[0].headers,
                forall|k: int| 0 <= k < i ==> (#[trigger] views[k]).wf(),
                forall|k: int| 0 <= k < i ==> (#[trigger] views[k]).id == k,
                timeline@ == timeline_of(views.take(i as int)),
                strictly_increasing(timeline@),
                i > 0 ==> is_first_close(views[0].headers, close as int),
                forall|k: int| 0 <= k < i ==> own_fault(views, k) is None,
                forall|k: int| 0 <= k < i ==> (#[trigger] views[k]).headers == views[0].headers,
                forall|k: int| 0 <= k < i ==> strictly_increasing((#[trigger] views[k]).timestamps),
            decreases assets.len() - i,
        {
            let asset = &assets[i];
            if asset.get_id() != i {
                assert(is_first_fault(views, i as int, Fault::WrongNumber));
                return Err(fault_error(Fault::WrongNumber, asset));
            }
            let headers = asset.get_headers();
            if i == 0 {
                match find_close(headers) {
                    Some(index) => {
                        close = index;
                    },
                    None => {
                        assert(is_first_fault(views, 0, Fault::MissingClose));
                        return Err(fault_error(Fault::MissingClose, asset));
                    },
                }
            } else if !same_headers(canonical, headers) {
                assert(views[i as int].headers != views[0].headers);
                assert(is_first_fault(views, i as int, Fault::ColumnsDiffer));
                return Err(fault_error(Fault::ColumnsDiffer, asset));
            }
            let stamps = asset.get_timestamps();
            if !is_increasing(stamps) {
                assert(!strictly_increasing(views[i as int].timestamps));
                assert(is_first_fault(views, i as int, Fault::NotIncreasing));
                return Err(fault_error(Fault::NotIncreasing, asset));
            }
            timeline = sorted_union(timeline.as_slice(), stamps.as_slice());
            proof {
                assert(views.take(i + 1).drop_last() =~= views.take(i as int));
                assert(views.take(i + 1).last() == views[i as int]);
            }
            i += 1;
        }
        proof {
            assert(views.take(assets.len() as int) =~= views);
            assert(all_wf(views));
        }
        let mut i: usize = 0;
        while i < assets.len()
            invariant
                i <= assets.len(),
                views == asset_views(assets@),
                all_wf(views),
                forall|k: int| 0 <= k < assets.len() ==> own_fault(views, k) is None,
                valid_collection(views) <==> forall|k: int|
                    0 <= k < assets.len() ==> contiguous_in(
                        timeline_of(views),
                        (#[trigger] views[k]).timestamps,
                    ),
                timeline@ == timeline_of(views),
                forall|k: int|
                    0 <= k < i ==> contiguous_in(timeline@, (#[trigger] views[k]).timestamps),
            decreases assets.len() - i,
        {
            let stamps = assets[i].get_timestamps();
            if !is_continuous_subset(timeline.as_slice(), stamps.as_slice()) {
                assert(!contiguous_in(timeline_of(views), views[i as int].timestamps));
                assert(is_first_fault(views, i as int, Fault::NotContiguous));
                return Err(fault_error(Fault::NotContiguous, &assets[i]));
            }
            i += 1;
        }
        Ok((close, timeline))
    }

    /// Lays every instrument out on the timeline. Each row of the matrix is
    /// one instrument: for each step of the timeline a block of one cell for
    /// each column, with the cells of the row observed at that step, or the
    /// not-a-number sentinel where the instrument is not observed. Beside the
    /// matrix stands, for each instrument, the span of steps at which it is
    /// observed.
    #[verifier::loop_isolation(false)]
    fn build(assets: &Vec<Asset>, timeline: &Vec<i64>, col_count: usize) -> (built: (
        CellMatrix,
        Vec<Span>,
    ))
        requires
            all_wf(asset_views(assets@)),
            valid_collection(asset_views(assets@)),
            fits_memory(asset_views(assets@)),
            timeline@ == timeline_of(asset_views(assets@)),
            col_count == asset_views(assets@)[0].cols,
        ensures
            matrix_cells(built.0) == aligned_matrix(asset_views(assets@), timeline@),
            has_shape(built.0, assets.len() as int, timeline.len() * col_count),
            built.1@.len() == assets.len(),
            forall|i: int, step: int|
                0 <= i < assets.len() && 0 <= step < timeline.len() ==> observed_row(
                    asset_views(assets@)[i].timestamps,
                    #[trigger] timeline@[step],
                ) == span_row(#[trigger] built.1@[i], step),
    {
        let ghost views = asset_views(assets@);
        let count = assets.len();
        let steps = timeline.len();
        proof {
            lemma_timeline_increasing(views);
            assert(steps * col_count <= isize::MAX) by (nonlinear_arith)
                requires
                    count * (steps * col_count) * 8 <= isize::MAX,
                    count > 0,
            ;
        }
        let width = steps * col_count;
        let mut data = matrix_zeros(count, width);
        let mut spans: Vec<Span> = Vec::new();
        let mut i: usize = 0;
        while i < count
            invariant
                i <= count,
                spans@.len() == i,
                has_shape(data, count as int, width as int),
                forall|k: int|
                    0 <= k < i ==> (#[trigger] matrix_cells(data)[k]) == aligned_row(
                        views[k],
                        timeline@,
                    ),
                forall|k: int, step: int|
                    0 <= k < i && 0 <= step < steps ==> observed_row(
                        views[k].timestamps,
                        #[trigger] timeline@[step],
                    ) == span_row(#[trigger] spans@[k], step),
            decreases count - i,
        {
            let asset = &assets[i];
            let stamps = asset.get_timestamps();
            let cells = asset.get_data();
            let ghost view = views[i as int];
            let ghost offset: int = if view.timestamps.len() > 0 {
                choose|o: int| is_run_at(timeline@, view.timestamps, o)
            } else {
                0
            };
            proof {
                assert(view == assets@[i as int]@);
                assert(view.headers == views[0].headers);
                assert(view.cols == col_count);
                assert(contiguous_in(timeline@, view.timestamps));
            }
            let mut cursor: usize = 0;
            let mut start: usize = 0;
            let mut step: usize = 0;
            while step < steps
                invariant
                    step <= steps,
                    i < count,
                    cursor_inv(view.timestamps, offset, step as int, cursor as int),
                    cursor > 0 ==> start == offset,
                    has_shape(data, count as int, width as int),
                    forall|k: int|
                        0 <= k < i ==> (#[trigger] matrix_cells(data)[k]) == aligned_row(
                            views[k],
                            timeline@,
                        ),
                    forall|j: int|
                        0 <= j < step * col_count ==> (#[trigger] matrix_cells(data)[i as int][j])
                            == aligned_row(view, timeline@)[j],
                    forall|e: int|
                        0 <= e < step ==> observed_row(view.timestamps, #[trigger] timeline@[e])
                            == span_row(Span { start, len: cursor }, e),
                decreases steps - step,
            {
                let instant = timeline[step];
                let present = cursor < stamps.len() && stamps[cursor] != 0 && stamps[cursor]
                    == instant;
                proof {
                    lemma_cursor_step(
                        timeline@,
                        view.timestamps,
                        offset,
                        step as int,
                        cursor as int,
                    );
                    assert(present == cursor_matches(
                        timeline@,
                        view.timestamps,
                        step as int,
                        cursor as int,
                    ));
                }
                let mut col: usize = 0;
                while col < col_count
                    invariant
                        col <= col_count,
                        step < steps,
                        i < count,
                        has_shape(data, count as int, width as int),
                        forall|k: int|
                            0 <= k < i ==> (#[trigger] matrix_cells(data)[k]) == aligned_row(
                                views[k],
                                timeline@,
                            ),
                        forall|j: int|
                            0 <= j < step * col_count + col ==> (#[trigger] matrix_cells(
                                data,
                            )[i as int][j]) == aligned_row(view, timeline@)[j],
                    decreases col_count - col,
                {
                    proof {
                        lemma_cell_index(step as int, col as int, steps as int, col_count as int);
                        if present {
                            lemma_cell_index(
                                cursor as int,
                                col as int,
                                stamps.len() as int,
                                col_count as int,
                            );
                            assert(cells@.len() == cells.len());
                            assert(0 <= cursor * col_count) by (nonlinear_arith);
                        }
                    }
                    let bits = if present {
                        cells[cursor * col_count + col]
                    } else {
                        NAN_BITS
                    };
                    let place = step * col_count + col;
                    proof {
                        assert(aligned_row(view, timeline@)[place as int] == aligned_cell(
                            view,
                            timeline@[step as int],
                            col as int,
                        ));
                        assert(bits == aligned_cell(view, timeline@[step as int], col as int));
                    }
                    matrix_set(&mut data, i, place, bits);
                    col += 1;
                }
                proof {
                    assert(step * col_count + col_count == (step + 1) * col_count)
                        by (nonlinear_arith);
                }
                if present {
                    if cursor == 0 {
                        start = step;
                    }
                    cursor += 1;
                }
                step += 1;
            }
            proof {
                assert(matrix_cells(data)[i as int] =~= aligned_row(view, timeline@));
            }
            spans.push(Span { start, len: cursor });
            i += 1;
        }
        proof {
            assert(matrix_cells(data) =~= aligned_matrix(views, timeline@));
        }
        (data, spans)
    }
}

} // verus!

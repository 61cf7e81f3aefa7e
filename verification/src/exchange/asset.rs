//! One instrument's time series, and how it is read from a table.

use vstd::prelude::*;
use crate::standard::error::AtlasError;
use crate::standard::time::{epoch_seconds, string_to_nanoseconds_epoch};
use crate::standard::types::{cell_at, lemma_cell_index, AtlasResult};

verus! {

/// One instrument's series: a row of cells for each timestamp.
#[derive(Debug)]
pub struct Asset {
    timestamps: Vec<i64>,
    data: Vec<u64>,
    source: Option<String>,
    datetime_format: String,
    name: String,
    id: usize,
    rows: usize,
    cols: usize,
    headers: Vec<String>,
}

/// What an `Asset` holds, as mathematical values.
#[verifier::ext_equal]
pub struct AssetView {
    pub id: usize,
    pub name: Seq<char>,
    pub source: Option<Seq<char>>,
    pub datetime_format: Seq<char>,
    pub timestamps: Seq<i64>,
    pub data: Seq<u64>,
    pub cols: nat,
    pub headers: Seq<Seq<char>>,
}

impl AssetView {
    /// The number of rows.
    pub open spec fn rows(self) -> nat {
        self.timestamps.len()
    }

    /// There is one row of `cols` cells for each timestamp, and one column name
    /// for each column.
    pub open spec fn wf(self) -> bool {
        &&& self.data.len() == self.timestamps.len() * self.cols
        &&& self.headers.len() == self.cols
    }

    /// The cell of row `row` and column `col`.
    pub open spec fn cell(self, row: int, col: int) -> u64 {
        cell_at(self.data, self.cols as int, row, col)
    }
}

/// What a sequence of instruments holds, as mathematical values.
pub open spec fn asset_views(assets: Seq<Asset>) -> Seq<AssetView> {
    Seq::new(assets.len(), |i: int| assets[i]@)
}

/// The texts of a sequence of strings.
pub open spec fn texts(strings: Seq<String>) -> Seq<Seq<char>> {
    Seq::new(strings.len(), |i: int| strings[i]@)
}

/// The texts of the records of a table.
pub open spec fn records_text(records: Seq<Vec<String>>) -> Seq<Seq<Seq<char>>> {
    Seq::new(records.len(), |r: int| texts(records[r]@))
}

/// The records are a table: a header and at least one more row, each as wide
/// as the header, which holds at least the name of the timestamp column.
pub open spec fn is_table(records: Seq<Vec<String>>) -> bool {
    &&& records.len() >= 2
    &&& records[0]@.len() >= 1
    &&& forall|r: int|
        0 <= r < records.len() ==> (#[trigger] records[r])@.len() == records[0]@.len()
}

/// The first cell of every row under the header reads as a timestamp.
pub open spec fn stamps_parse(records: Seq<Vec<String>>, format: Seq<char>) -> bool {
    forall|r: int|
        1 <= r < records.len() ==> epoch_seconds((#[trigger] records[r])@[0]@, format) is Some
}

/// Some cell under the header, right of the timestamps, may be refused by
/// `parse`.
pub open spec fn some_cell_refused<F: Fn(&String) -> Option<u64>>(
    records: Seq<Vec<String>>,
    parse: F,
) -> bool {
    exists|r: int, c: int|
        1 <= r < records.len() && 1 <= c < records[r]@.len() && call_ensures(
            parse,
            (&#[trigger] records[r]@[c],),
            None,
        )
}

/// What can be wrong with the records of a table, but for its timestamps.
pub enum TableFault {
    /// There is no row under the header.
    NoRows,
    /// The header is empty.
    NoHeader,
    /// A row is not as wide as the header.
    RowWidth,
    /// A cell is not a number.
    Cell,
}

/// How an error names a fault of a table.
pub open spec fn table_fault_text(fault: TableFault) -> Seq<char> {
    match fault {
        TableFault::NoRows => "a table needs a header and at least one row"@,
        TableFault::NoHeader => "the header names no timestamp column"@,
        TableFault::RowWidth => "a row is not as wide as the header"@,
        TableFault::Cell => "a data cell is not a number"@,
    }
}

/// The records have the fault `fault`.
pub open spec fn has_table_fault<F: Fn(&String) -> Option<u64>>(
    records: Seq<Vec<String>>,
    parse: F,
    fault: TableFault,
) -> bool {
    match fault {
        TableFault::NoRows => records.len() < 2,
        TableFault::NoHeader => records.len() >= 2 && records[0]@.len() < 1,
        TableFault::RowWidth => exists|r: int|
            0 <= r < records.len() && (#[trigger] records[r])@.len() != records[0]@.len(),
        TableFault::Cell => some_cell_refused(records, parse),
    }
}

/// The parse error for `fault` in the table of the instrument `name`.
fn table_error(fault: TableFault, name: &str) -> (error: AtlasError)
    ensures
        error is ParseError,
        error.msg() == table_fault_text(fault) + ": "@ + name@,
{
    let text = match fault {
        TableFault::NoRows => "a table needs a header and at least one row",
        TableFault::NoHeader => "the header names no timestamp column",
        TableFault::RowWidth => "a row is not as wide as the header",
        TableFault::Cell => "a data cell is not a number",
    };
    AtlasError::ParseError { msg: String::from_str(text).concat(": ").concat(name) }
}

/// `asset` is what the table `records` holds: the column names from the header,
/// a timestamp from the first cell of each further row, and for each other cell
/// a value that `parse` gave for its text.
pub open spec fn ingested<F: Fn(&String) -> Option<u64>>(
    asset: AssetView,
    id: usize,
    datetime_format: Seq<char>,
    name: Seq<char>,
    path: Seq<char>,
    records: Seq<Vec<String>>,
    parse: F,
) -> bool {
    &&& asset.wf()
    &&& asset.id == id
    &&& asset.name == name
    &&& asset.source == Some(path)
    &&& asset.datetime_format == datetime_format
    &&& asset.cols == records[0]@.len() - 1
    &&& asset.timestamps.len() == records.len() - 1
    &&& forall|c: int|
        1 <= c < records[0]@.len() ==> asset.headers[c - 1] == (#[trigger] records[0]@[c])@
    &&& forall|r: int|
        1 <= r < records.len() ==> epoch_seconds((#[trigger] records[r])@[0]@, datetime_format)
            == Some(asset.timestamps[r - 1])
    &&& forall|r: int, c: int|
        1 <= r < records.len() && 1 <= c < records[0]@.len() ==> call_ensures(
            parse,
            (&#[trigger] records[r]@[c],),
            Some(asset.cell(r - 1, c - 1)),
        )
}

/// What reading the table `records` may come to: an asset that holds the table,
/// or a parse error. The error tells a fault of the table and names the
/// instrument, or it is the error of a timestamp that does not read.
pub open spec fn ingest_outcome<F: Fn(&String) -> Option<u64>>(
    outcome: AtlasResult<Asset>,
    id: usize,
    datetime_format: Seq<char>,
    name: Seq<char>,
    path: Seq<char>,
    records: Seq<Vec<String>>,
    parse: F,
) -> bool {
    match outcome {
        Ok(asset) => {
            &&& is_table(records)
            &&& stamps_parse(records, datetime_format)
            &&& ingested(asset@, id, datetime_format, name, path, records, parse)
        },
        Err(error) => {
            &&& error is ParseError
            &&& !stamps_parse(records, datetime_format) || exists|fault: TableFault|
                #[trigger] has_table_fault(records, parse, fault) && error.msg()
                    == table_fault_text(fault) + ": "@ + name
        },
    }
}

/// What `csv::Reader::records` yields for `content`, read without a header
/// row of its own: every record with the text of each of its fields, or nothing
/// where the reader rejects the content.
pub uninterp spec fn csv_records(content: Seq<u8>) -> Option<Seq<Seq<Seq<char>>>>;

/// What reading the bytes of a table may come to: a parse error where the
/// bytes do not split into records, and else what reading those records may
/// come to.
pub open spec fn read_outcome<F: Fn(&String) -> Option<u64>>(
    outcome: AtlasResult<Asset>,
    id: usize,
    datetime_format: Seq<char>,
    name: Seq<char>,
    path: Seq<char>,
    content: Seq<u8>,
    parse: F,
) -> bool {
    match csv_records(content) {
        None => outcome is Err && outcome->Err_0 is ParseError,
        Some(text) => exists|records: Vec<Vec<String>>|
            records_text(records@) == text && #[trigger] ingest_outcome(
                outcome,
                id,
                datetime_format,
                name,
                path,
                records@,
                parse,
            ),
    }
}

/// `csv::ReaderBuilder::from_reader` on the bytes, then `csv::Reader::records`
/// to the end: the records with their fields as strings, or the first error.
/// It succeeds exactly where `csv_records` has a value, and then returns the
/// records of that value.
#[verifier::external_body]
fn read_records(content: &[u8]) -> (records: Result<Vec<Vec<String>>, csv::Error>)
    ensures
        records matches Ok(rows) ==> csv_records(content@) == Some(records_text(rows@)),
        records is Err ==> csv_records(content@) is None,
{
    let mut reader = csv::ReaderBuilder::new().has_headers(false).from_reader(content);
    let mut rows: Vec<Vec<String>> = Vec::new();
    for record in reader.records() {
        rows.push(record?.iter().map(|field| field.to_string()).collect());
    }
    Ok(rows)
}

impl View for Asset {
    type V = AssetView;

    closed spec fn view(&self) -> AssetView {
        AssetView {
            id: self.id,
            name: self.name@,
            source: match self.source {
                Some(path) => Some(path@),
                None => None,
            },
            datetime_format: self.datetime_format@,
            timestamps: self.timestamps@,
            data: self.data@,
            cols: self.cols as nat,
            headers: texts(self.headers@),
        }
    }
}

impl Asset {
    #[verifier::type_invariant]
    spec fn inv(self) -> bool {
        &&& self.rows == self.timestamps@.len()
        &&& self.data@.len() == self.rows * self.cols
        &&& self.headers@.len() == self.cols
    }

    /// An instrument with one column, named as the instrument is, and one cell
    /// for each timestamp.
    pub fn new(id: usize, name: &str, data: Vec<u64>, timestamps: Vec<i64>) -> (asset: Asset)
        requires
            data.len() == timestamps.len(),
        ensures
            asset@.wf(),
            asset@.id == id,
            asset@.name == name@,
            asset@.source is None,
            asset@.datetime_format == Seq::<char>::empty(),
            asset@.timestamps == timestamps@,
            asset@.data == data@,
            asset@.cols == 1,
            asset@.headers == seq![name@],
    {
        let rows = data.len();
        let mut headers: Vec<String> = Vec::new();
        headers.push(String::from_str(name));
        let asset = Asset {
            timestamps,
            data,
            source: None,
            name: String::from_str(name),
            datetime_format: String::new(),
            id,
            rows,
            cols: 1,
            headers,
        };
        assert(asset@.headers =~= seq![name@]);
        asset
    }

    /// Builds an instrument from the records of a table. The first record is
    /// the header: its first cell names the timestamp column and the others
    /// name the data columns. Each further record is a row: its first cell is
    /// read as a timestamp under `datetime_format`, and `parse_cell` turns each
    /// other cell into the bits of its number.
    pub fn from_records<F: Fn(&String) -> Option<u64>>(
        id: usize,
        datetime_format: &str,
        name: &str,
        path: &str,
        records: &Vec<Vec<String>>,
        parse_cell: &F,
    ) -> (outcome: AtlasResult<Asset>)
        requires
            forall|text: &String| call_requires(*parse_cell, (text,)),
        ensures
            ingest_outcome(
                outcome,
                id,
                datetime_format@,
                name@,
                path@,
                records@,
                *parse_cell,
            ),
    {
        if records.len() < 2 {
            assert(has_table_fault(records@, *parse_cell, TableFault::NoRows));
            return Err(table_error(TableFault::NoRows, name));
        }
        let width = records[0].len();
        if width < 1 {
            assert(has_table_fault(records@, *parse_cell, TableFault::NoHeader));
            return Err(table_error(TableFault::NoHeader, name));
        }
        let cols = width - 1;
        let mut headers: Vec<String> = Vec::new();
        let mut c: usize = 1;
        while c < width
            invariant
                1 <= c <= width,
                width == records@[0]@.len(),
                records@.len() >= 2,
                headers@.len() == c - 1,
                forall|k: int| 1 <= k < c ==> headers@[k - 1]@ == (#[trigger] records@[0]@[k])@,
            decreases width - c,
        {
            headers.push(records[0][c].clone());
            c += 1;
        }
        let mut timestamps: Vec<i64> = Vec::new();
        let mut data: Vec<u64> = Vec::new();
        let mut r: usize = 1;
        while r < records.len()
            invariant
                1 <= r <= records.len(),
                width == records@[0]@.len(),
                width >= 1,
                cols == width - 1,
                timestamps@.len() == r - 1,
                data@.len() == (r - 1) * cols,
                forall|text: &String| call_requires(*parse_cell, (text,)),
                forall|k: int| 0 <= k < r ==> (#[trigger] records@[k])@.len() == width,
                forall|k: int|
                    1 <= k < r ==> epoch_seconds((#[trigger] records@[k])@[0]@, datetime_format@)
                        == Some(timestamps@[k - 1]),
                forall|k: int, j: int|
                    1 <= k < r && 1 <= j < width ==> call_ensures(
                        *parse_cell,
                        (&#[trigger] records@[k]@[j],),
                        Some(cell_at(data@, cols as int, k - 1, j - 1)),
                    ),
            decreases records.len() - r,
        {
            let record = &records[r];
            if record.len() != width {
                assert(has_table_fault(records@, *parse_cell, TableFault::RowWidth));
                return Err(table_error(TableFault::RowWidth, name));
            }
            let stamp = match string_to_nanoseconds_epoch(record[0].as_str(), datetime_format) {
                Ok(stamp) => stamp,
                Err(error) => {
                    assert(!stamps_parse(records@, datetime_format@));
                    return Err(AtlasError::from(error));
                },
            };
            let ghost row_start = data@;
            let mut c: usize = 1;
            while c < width
                invariant
                    1 <= c <= width,
                    1 <= r < records.len(),
                    width >= 1,
                    cols == width - 1,
                    record == &records@[r as int],
                    record@.len() == width,
                    row_start.len() == (r - 1) * cols,
                    data@.len() == (r - 1) * cols + (c - 1),
                    data@.subrange(0, row_start.len() as int) == row_start,
                    forall|text: &String| call_requires(*parse_cell, (text,)),
                    forall|j: int|
                        1 <= j < c ==> call_ensures(
                            *parse_cell,
                            (&#[trigger] record@[j],),
                            Some(data@[(r - 1) * cols + (j - 1)]),
                        ),
                decreases width - c,
            {
                match parse_cell(&record[c]) {
                    Some(bits) => {
                        data.push(bits);
                    },
                    None => {
                        assert(some_cell_refused(records@, *parse_cell)) by {
                            assert(call_ensures(*parse_cell, (&records@[r as int]@[c as int],), None));
                        }
                        assert(has_table_fault(records@, *parse_cell, TableFault::Cell));
                        return Err(table_error(TableFault::Cell, name));
                    },
                }
                c += 1;
            }
            timestamps.push(stamp);
            proof {
                assert((r - 1) * cols + cols == r * cols) by (nonlinear_arith);
                assert forall|k: int, j: int| 1 <= k < r + 1 && 1 <= j < width implies call_ensures(
                    *parse_cell,
                    (&#[trigger] records@[k]@[j],),
                    Some(cell_at(data@, cols as int, k - 1, j - 1)),
                ) by {
                    lemma_cell_index(k - 1, j - 1, r as int, cols as int);
                    if k < r {
                        lemma_cell_index(k - 1, j - 1, r - 1, cols as int);
                        assert(row_start[(k - 1) * cols + (j - 1)] == data@[(k - 1) * cols + (j
                            - 1)]);
                    }
                }
            }
            r += 1;
        }
        let rows = timestamps.len();
        let asset = Asset {
            timestamps,
            data,
            source: Some(String::from_str(path)),
            name: String::from_str(name),
            datetime_format: String::from_str(datetime_format),
            id,
            rows,
            cols,
            headers,
        };
        proof {
            assert(is_table(records@));
            assert(stamps_parse(records@, datetime_format@));
        }
        Ok(asset)
    }

    /// Builds an instrument from the bytes of a delimited text file: the bytes
    /// are split into records, and the records are read as `from_records` reads
    /// them.
    pub fn from_csv<F: Fn(&String) -> Option<u64>>(
        id: usize,
        datetime_format: &str,
        name: &str,
        path: &str,
        content: &[u8],
        parse_cell: &F,
    ) -> (outcome: AtlasResult<Asset>)
        requires
            forall|text: &String| call_requires(*parse_cell, (text,)),
        ensures
            read_outcome(
                outcome,
                id,
                datetime_format@,
                name@,
                path@,
                content@,
                *parse_cell,
            ),
    {
        match read_records(content) {
            Ok(records) => Asset::from_records(
                id,
                datetime_format,
                name,
                path,
                &records,
                parse_cell,
            ),
            Err(error) => Err(AtlasError::from(error)),
        }
    }

    /// The cell of row `row` and column `col`.
    pub fn get(&self, row: usize, col: usize) -> (bits: u64)
        requires
            row < self@.rows(),
            col < self@.cols,
        ensures
            bits == self@.cell(row as int, col as int),
    {
        proof {
            use_type_invariant(self);
            lemma_cell_index(row as int, col as int, self.rows as int, self.cols as int);
            assert(self.data@.len() == self.data.len());
            assert(0 <= row * self.cols) by (nonlinear_arith);
        }
        self.data[row * self.cols + col]
    }

    /// The cells, row after row.
    pub fn get_data(&self) -> (data: &Vec<u64>)
        ensures
            data@ == self@.data,
            self@.wf(),
    {
        proof {
            use_type_invariant(self);
        }
        &self.data
    }

    /// The number that the instrument has in its collection.
    pub fn get_id(&self) -> (id: usize)
        ensures
            id == self@.id,
    {
        self.id
    }

    /// The timestamps, one for each row.
    pub fn get_timestamps(&self) -> (timestamps: &Vec<i64>)
        ensures
            timestamps@ == self@.timestamps,
            self@.wf(),
    {
        proof {
            use_type_invariant(self);
        }
        &self.timestamps
    }

    /// The timestamp of row `row`.
    pub fn get_timestamp(&self, row: usize) -> (timestamp: i64)
        requires
            row < self@.rows(),
        ensures
            timestamp == self@.timestamps[row as int],
    {
        self.timestamps[row]
    }

    /// The name of the instrument.
    pub fn get_name(&self) -> (name: &str)
        ensures
            name@ == self@.name,
    {
        self.name.as_str()
    }

    /// The format under which the timestamps were read; empty where none were.
    pub fn get_datetime_format(&self) -> (format: &str)
        ensures
            format@ == self@.datetime_format,
    {
        self.datetime_format.as_str()
    }

    /// Tells whether the instrument has the name `name`.
    pub fn has_name(&self, name: &str) -> (same: bool)
        ensures
            same == (self@.name == name@),
    {
        self.name == String::from_str(name)
    }

    /// The number of rows.
    pub fn get_rows(&self) -> (rows: usize)
        ensures
            rows == self@.rows(),
            self@.wf(),
    {
        proof {
            use_type_invariant(self);
        }
        self.rows
    }

    /// The number of columns.
    pub fn get_cols(&self) -> (cols: usize)
        ensures
            cols == self@.cols,
            self@.wf(),
    {
        proof {
            use_type_invariant(self);
        }
        self.cols
    }

    /// The names of the columns; a column's place is its index.
    pub fn get_headers(&self) -> (headers: &Vec<String>)
        ensures
            texts(headers@) == self@.headers,
            self@.wf(),
    {
        proof {
            use_type_invariant(self);
        }
        &self.headers
    }

    /// Gives the columns new names, one for each column.
    pub fn set_headers(&mut self, headers: Vec<String>)
        requires
            headers.len() == old(self)@.cols,
        ensures
            final(self)@ == (AssetView { headers: texts(headers@), ..old(self)@ }),
    {
        proof {
            use_type_invariant(&*self);
        }
        self.headers = headers;
    }

    /// Records where the series was read from.
    pub fn set_source(&mut self, source: &str)
        ensures
            final(self)@ == (AssetView { source: Some(source@), ..old(self)@ }),
    {
        proof {
            use_type_invariant(&*self);
        }
        self.source = Some(String::from_str(source));
    }

    /// Where the series was read from, where that is known.
    pub fn get_source(&self) -> (source: Option<&str>)
        ensures
            match source {
                Some(path) => self@.source == Some(path@),
                None => self@.source is None,
            },
    {
        match &self.source {
            Some(path) => Some(path.as_str()),
            None => None,
        }
    }
}

} // verus!

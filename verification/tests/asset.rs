use atlas_core::exchange::Asset;
use atlas_core::standard::AtlasError;

fn bits(text: &String) -> Option<u64> {
    text.parse::<f64>().ok().map(|value| value.to_bits())
}

fn records(rows: &[&[&str]]) -> Vec<Vec<String>> {
    rows.iter().map(|row| row.iter().map(|cell| cell.to_string()).collect()).collect()
}

#[test]
fn single_column_asset_holds_its_parts() {
    let asset = Asset::new(3, "spot", vec![1.5f64.to_bits(), 2.5f64.to_bits()], vec![10, 20]);
    assert_eq!(asset.get_id(), 3);
    assert_eq!(asset.get_name(), "spot");
    assert_eq!(asset.get_rows(), 2);
    assert_eq!(asset.get_cols(), 1);
    assert_eq!(asset.get_headers(), &vec!["spot".to_string()]);
    assert_eq!(asset.get_timestamps(), &vec![10, 20]);
    assert_eq!(asset.get_timestamp(1), 20);
    assert_eq!(f64::from_bits(asset.get(1, 0)), 2.5);
    assert_eq!(asset.get_source(), None);
    assert!(asset.has_name("spot"));
    assert!(!asset.has_name("Spot"));
}

#[test]
fn source_and_headers_can_be_set() {
    let mut asset = Asset::new(0, "spot", vec![0], vec![1]);
    asset.set_source("dir/spot.csv");
    asset.set_headers(vec!["Close".to_string()]);
    assert_eq!(asset.get_source(), Some("dir/spot.csv"));
    assert_eq!(asset.get_headers(), &vec!["Close".to_string()]);
}

#[test]
fn table_is_read_row_by_row() {
    let table = records(&[
        &["Date", "Open", "Close"],
        &["1970-01-02", "1.5", "2"],
        &["1970-01-03", "-3", "4e2"],
    ]);
    let asset = Asset::from_records(7, "%Y-%m-%d", "abc", "dir/abc.csv", &table, &bits).unwrap();
    assert_eq!(asset.get_id(), 7);
    assert_eq!(asset.get_name(), "abc");
    assert_eq!(asset.get_source(), Some("dir/abc.csv"));
    assert_eq!(asset.get_datetime_format(), "%Y-%m-%d");
    assert_eq!(asset.get_rows(), 2);
    assert_eq!(asset.get_cols(), 2);
    assert_eq!(asset.get_headers(), &vec!["Open".to_string(), "Close".to_string()]);
    assert_eq!(asset.get_timestamps(), &vec![86_400, 172_800]);
    let values: Vec<f64> = asset.get_data().iter().map(|b| f64::from_bits(*b)).collect();
    assert_eq!(values, vec![1.5, 2.0, -3.0, 400.0]);
    assert_eq!(f64::from_bits(asset.get(1, 1)), 400.0);
}

#[test]
fn table_without_rows_is_a_parse_error() {
    let only_header = records(&[&["Date", "Close"]]);
    let outcome = Asset::from_records(0, "%Y-%m-%d", "a", "a.csv", &only_header, &bits);
    assert!(matches!(outcome, Err(AtlasError::ParseError { .. })));
    let nothing = records(&[]);
    let outcome = Asset::from_records(0, "%Y-%m-%d", "a", "a.csv", &nothing, &bits);
    assert!(matches!(outcome, Err(AtlasError::ParseError { .. })));
}

#[test]
fn ragged_table_is_a_parse_error() {
    let table = records(&[&["Date", "Close"], &["1970-01-02", "1", "2"]]);
    let outcome = Asset::from_records(0, "%Y-%m-%d", "a", "a.csv", &table, &bits);
    assert!(matches!(outcome, Err(AtlasError::ParseError { .. })));
    let table = vec![Vec::new(), vec!["1970-01-02".to_string()]];
    let outcome = Asset::from_records(0, "%Y-%m-%d", "a", "a.csv", &table, &bits);
    assert!(matches!(outcome, Err(AtlasError::ParseError { .. })));
}

#[test]
fn malformed_timestamp_cell_is_a_parse_error() {
    let table = records(&[&["Date", "Close"], &["1970-01-02", "1"], &["tomorrow", "2"]]);
    let outcome = Asset::from_records(0, "%Y-%m-%d", "a", "a.csv", &table, &bits);
    assert!(matches!(outcome, Err(AtlasError::ParseError { .. })));
}

#[test]
fn non_numeric_cell_is_a_parse_error() {
    let table = records(&[&["Date", "Close"], &["1970-01-02", "1"], &["1970-01-03", "two"]]);
    let outcome = Asset::from_records(0, "%Y-%m-%d", "a", "a.csv", &table, &bits);
    assert!(matches!(outcome, Err(AtlasError::ParseError { .. })));
}

#[test]
fn timestamp_column_alone_gives_no_columns() {
    let table = records(&[&["Date"], &["1970-01-02"]]);
    let asset = Asset::from_records(0, "%Y-%m-%d", "a", "a.csv", &table, &bits).unwrap();
    assert_eq!(asset.get_cols(), 0);
    assert_eq!(asset.get_rows(), 1);
    assert!(asset.get_data().is_empty());
}

#[test]
fn csv_bytes_are_split_into_records() {
    let content = b"Date,Open,Close\n1970-01-02,1.5,\"2\"\n1970-01-03,-3,4e2\n";
    let asset = Asset::from_csv(1, "%Y-%m-%d", "abc", "abc.csv", content, &bits).unwrap();
    assert_eq!(asset.get_headers(), &vec!["Open".to_string(), "Close".to_string()]);
    assert_eq!(asset.get_timestamps(), &vec![86_400, 172_800]);
    let values: Vec<f64> = asset.get_data().iter().map(|b| f64::from_bits(*b)).collect();
    assert_eq!(values, vec![1.5, 2.0, -3.0, 400.0]);
}

#[test]
fn csv_with_unequal_rows_is_a_parse_error() {
    let content = b"Date,Close\n1970-01-02,1,2\n";
    let outcome = Asset::from_csv(1, "%Y-%m-%d", "abc", "abc.csv", content, &bits);
    assert!(matches!(outcome, Err(AtlasError::ParseError { .. })));
}

#[test]
fn empty_csv_is_a_parse_error() {
    let outcome = Asset::from_csv(1, "%Y-%m-%d", "abc", "abc.csv", b"", &bits);
    assert!(matches!(outcome, Err(AtlasError::ParseError { .. })));
}

#[test]
fn table_errors_name_the_fault_and_the_instrument() {
    let message = |table: &Vec<Vec<String>>| match Asset::from_records(0, "%Y-%m-%d", "abc", "abc.csv", table, &bits) {
        Err(error) => error.message().clone(),
        Ok(_) => panic!("the table was read"),
    };
    assert_eq!(message(&records(&[&["Date", "Close"]])), "a table needs a header and at least one row: abc");
    assert_eq!(
        message(&vec![Vec::new(), Vec::new()]),
        "the header names no timestamp column: abc"
    );
    assert_eq!(
        message(&records(&[&["Date", "Close"], &["1970-01-02"]])),
        "a row is not as wide as the header: abc"
    );
    assert_eq!(
        message(&records(&[&["Date", "Close"], &["1970-01-02", "x"]])),
        "a data cell is not a number: abc"
    );
    let stamp = atlas_core::standard::string_to_nanoseconds_epoch("x", "%Y-%m-%d").unwrap_err();
    assert_eq!(message(&records(&[&["Date", "Close"], &["x", "1"]])), stamp.to_string());
}

#[test]
fn first_failure_in_reading_order_is_reported() {
    let table = records(&[&["Date", "Close"], &["1970-01-02", "x"], &["1970-01-03"]]);
    let outcome = Asset::from_records(0, "%Y-%m-%d", "abc", "abc.csv", &table, &bits);
    assert_eq!(outcome.unwrap_err().message(), "a data cell is not a number: abc");
}

use atlas_core::exchange::{Asset, Exchange, SourceFile, StepReturn};
use atlas_core::standard::{AtlasError, NAN_BITS};

const EXCHANGE1_NAME: &str = "test_exchange";
const EXCHANGE1_PATH: &str = "tests/exchanges/exchange1";
const DATETIME_FORMAT: &str = "%Y-%m-%d";
const ASSET1_CLOSE: [f64; 4] = [101.0, 103.0, 105.0, 106.0];
const ASSET2_CLOSE: [f64; 6] = [101.5, 99.0, 97.0, 101.5, 101.5, 96.0];
const DAY: i64 = 86_400;

fn bits(text: &String) -> Option<u64> {
    text.parse::<f64>().ok().map(|value| value.to_bits())
}

fn file(name: &str, closes: &[f64]) -> SourceFile {
    let mut text = String::from("Date,Open,Close\n");
    for (day, close) in closes.iter().enumerate() {
        text.push_str(&format!("2000-06-{:02},{},{}\n", day + 5, close - 1.0, close));
    }
    SourceFile {
        file_name: name.to_string(),
        path: format!("{}/{}", EXCHANGE1_PATH, name),
        content: text.into_bytes(),
    }
}

fn exchange1() -> Result<Exchange, AtlasError> {
    let files = vec![file("asset1.csv", &ASSET1_CLOSE), file("asset2.csv", &ASSET2_CLOSE)];
    Exchange::new(EXCHANGE1_NAME, EXCHANGE1_PATH, DATETIME_FORMAT, &files, &bits)
}

fn series(id: usize, name: &str, stamps: &[i64], closes: &[f64]) -> Asset {
    let mut asset = Asset::new(
        id,
        name,
        closes.iter().map(|close| close.to_bits()).collect(),
        stamps.to_vec(),
    );
    asset.set_headers(vec!["close".to_string()]);
    asset
}

fn ratio(change: Option<StepReturn>) -> f64 {
    match change {
        Some(StepReturn::Zero) => 0.0,
        Some(StepReturn::Change { previous, current }) => {
            let value = (f64::from_bits(current) - f64::from_bits(previous)) / f64::from_bits(previous);
            if value.is_nan() {
                0.0
            } else {
                value
            }
        }
        None => panic!("outside the collection"),
    }
}

#[test]
fn test_exchange_new() {
    let exchange_result = exchange1();
    if let Err(ref error) = exchange_result {
        println!("{}: {}", "Failed to create Exchange", error.to_string());
        assert!(false);
    }
    let exchange = exchange_result.unwrap();
    let timestamps = exchange.get_timestamps();
    assert!(timestamps.len() == 6);
}

#[test]
fn sentinel_is_not_a_number() {
    assert!(f64::from_bits(NAN_BITS).is_nan());
    assert_eq!(NAN_BITS, f64::NAN.to_bits());
}

#[test]
fn shorter_series_is_padded_after_its_end() {
    let exchange = exchange1().unwrap();
    let close = 1;
    for step in 0..4 {
        let value = exchange.get_value(0, step, close).unwrap();
        assert_eq!(f64::from_bits(value), ASSET1_CLOSE[step]);
        let open = exchange.get_value(0, step, 0).unwrap();
        assert_eq!(f64::from_bits(open), ASSET1_CLOSE[step] - 1.0);
    }
    for step in 4..6 {
        assert_eq!(exchange.get_value(0, step, 0), Some(NAN_BITS));
        assert_eq!(exchange.get_value(0, step, close), Some(NAN_BITS));
        assert_eq!(exchange.get_return(0, step), Some(StepReturn::Zero));
    }
    for step in 0..6 {
        let value = exchange.get_value(1, step, close).unwrap();
        assert_eq!(f64::from_bits(value), ASSET2_CLOSE[step]);
    }
}

#[test]
fn returns_follow_the_closes() {
    let exchange = exchange1().unwrap();
    assert_eq!(exchange.get_return(0, 0), Some(StepReturn::Zero));
    assert_eq!(exchange.get_return(1, 0), Some(StepReturn::Zero));
    assert_eq!(
        exchange.get_return(0, 1),
        Some(StepReturn::Change { previous: 101.0f64.to_bits(), current: 103.0f64.to_bits() })
    );
    let second = ratio(exchange.get_return(0, 1));
    assert_eq!(second, (103.0 - 101.0) / 101.0);
    assert!((second - 0.0198).abs() < 1e-4);
    for step in 1..6 {
        let expected = (ASSET2_CLOSE[step] - ASSET2_CLOSE[step - 1]) / ASSET2_CLOSE[step - 1];
        assert_eq!(ratio(exchange.get_return(1, step)), expected);
    }
    assert_eq!(ratio(exchange.get_return(1, 4)), 0.0);
}

#[test]
fn accessors_refuse_what_lies_outside() {
    let exchange = exchange1().unwrap();
    assert_eq!(exchange.get_value(2, 0, 0), None);
    assert_eq!(exchange.get_value(0, 6, 0), None);
    assert_eq!(exchange.get_value(0, 0, 2), None);
    assert_eq!(exchange.get_return(2, 0), None);
    assert_eq!(exchange.get_return(0, 6), None);
}

#[test]
fn instruments_are_found_by_file_stem() {
    let exchange = exchange1().unwrap();
    let first = exchange.get_asset("asset1").unwrap();
    assert_eq!(first.get_id(), 0);
    assert_eq!(first.get_rows(), 4);
    assert_eq!(first.get_source(), Some("tests/exchanges/exchange1/asset1.csv"));
    let second = exchange.get_asset("asset2").unwrap();
    assert_eq!(second.get_id(), 1);
    assert!(exchange.get_asset("asset3").is_none());
    assert!(exchange.get_asset("asset1.csv").is_none());
    assert_eq!(exchange.get_assets().len(), 2);
}

#[test]
fn name_stops_at_the_first_dot() {
    let files = vec![file("abc.2020.csv", &ASSET1_CLOSE), file("plain", &ASSET1_CLOSE), file(".hidden", &ASSET1_CLOSE)];
    let exchange = Exchange::new("x", "dir", DATETIME_FORMAT, &files, &bits).unwrap();
    assert_eq!(exchange.get_assets()[0].get_name(), "");
    assert_eq!(exchange.get_assets()[1].get_name(), "abc");
    assert_eq!(exchange.get_assets()[2].get_name(), "plain");
}

#[test]
fn later_instrument_of_a_name_is_found() {
    let files = vec![file("a.csv", &ASSET1_CLOSE), file("a.txt", &ASSET2_CLOSE)];
    let exchange = Exchange::new("x", "dir", DATETIME_FORMAT, &files, &bits).unwrap();
    assert_eq!(exchange.get_asset("a").unwrap().get_id(), 1);
}

#[test]
fn no_files_is_a_configuration_error() {
    let outcome = Exchange::new("x", "dir", DATETIME_FORMAT, &Vec::new(), &bits);
    assert!(matches!(outcome, Err(AtlasError::ConfigurationError { .. })));
    let outcome = Exchange::from_assets("x", "dir", DATETIME_FORMAT, Vec::new());
    assert!(matches!(outcome, Err(AtlasError::ConfigurationError { .. })));
}

#[test]
fn unreadable_file_is_a_parse_error() {
    let mut broken = file("b.csv", &ASSET2_CLOSE);
    broken.content = b"Date,Close\n2000-06-05,abc\n".to_vec();
    let files = vec![file("a.csv", &ASSET1_CLOSE), broken];
    let outcome = Exchange::new("x", "dir", DATETIME_FORMAT, &files, &bits);
    assert!(matches!(outcome, Err(AtlasError::ParseError { .. })));
}

#[test]
fn differing_columns_are_a_consistency_error() {
    let mut other = series(1, "b", &[1, 2], &[1.0, 2.0]);
    other.set_headers(vec!["open".to_string()]);
    let assets = vec![series(0, "a", &[1, 2], &[1.0, 2.0]), other];
    let outcome = Exchange::from_assets("x", "dir", "", assets);
    assert!(matches!(outcome, Err(AtlasError::ConsistencyError { .. })));
    let mut files = vec![file("a.csv", &ASSET1_CLOSE), file("b.csv", &ASSET1_CLOSE)];
    files[1].content = b"Date,Close\n2000-06-05,1\n".to_vec();
    let outcome = Exchange::new("x", "dir", DATETIME_FORMAT, &files, &bits);
    assert!(matches!(outcome, Err(AtlasError::ConsistencyError { .. })));
}

#[test]
fn column_names_are_compared_exactly() {
    let mut other = series(1, "b", &[1, 2], &[1.0, 2.0]);
    other.set_headers(vec!["Close".to_string()]);
    let assets = vec![series(0, "a", &[1, 2], &[1.0, 2.0]), other];
    let outcome = Exchange::from_assets("x", "dir", "", assets);
    assert!(matches!(outcome, Err(AtlasError::ConsistencyError { .. })));
}

#[test]
fn non_increasing_timestamps_are_a_consistency_error() {
    let assets = vec![series(0, "a", &[1, 2, 2], &[1.0, 2.0, 3.0])];
    let outcome = Exchange::from_assets("x", "dir", "", assets);
    assert!(matches!(outcome, Err(AtlasError::ConsistencyError { .. })));
    let assets = vec![series(0, "a", &[1, 2], &[1.0, 2.0]), series(1, "b", &[3, 1], &[1.0, 2.0])];
    let outcome = Exchange::from_assets("x", "dir", "", assets);
    assert!(matches!(outcome, Err(AtlasError::ConsistencyError { .. })));
}

#[test]
fn missing_close_column_is_a_consistency_error() {
    let assets = vec![Asset::new(0, "price", vec![1.0f64.to_bits()], vec![1])];
    let outcome = Exchange::from_assets("x", "dir", "", assets);
    assert!(matches!(outcome, Err(AtlasError::ConsistencyError { .. })));
}

#[test]
fn close_column_is_found_in_any_case() {
    for name in ["close", "CLOSE", "Close", "cLoSe"] {
        let assets = vec![Asset::new(0, name, vec![1.0f64.to_bits()], vec![1])];
        assert!(Exchange::from_assets("x", "dir", "", assets).is_ok());
    }
    for name in ["closed", "clos", "c1ose", " close", ""] {
        let assets = vec![Asset::new(0, name, vec![1.0f64.to_bits()], vec![1])];
        let outcome = Exchange::from_assets("x", "dir", "", assets);
        assert!(matches!(outcome, Err(AtlasError::ConsistencyError { .. })));
    }
}

#[test]
fn series_with_a_gap_is_a_consistency_error() {
    let assets = vec![
        series(0, "a", &[DAY, 3 * DAY], &[1.0, 3.0]),
        series(1, "b", &[DAY, 2 * DAY, 3 * DAY], &[1.0, 2.0, 3.0]),
    ];
    let outcome = Exchange::from_assets("x", "dir", "", assets);
    assert!(matches!(outcome, Err(AtlasError::ConsistencyError { .. })));
}

#[test]
fn series_may_start_late_and_end_early() {
    let assets = vec![
        series(0, "a", &[2 * DAY, 3 * DAY], &[20.0, 30.0]),
        series(1, "b", &[DAY, 2 * DAY, 3 * DAY, 4 * DAY], &[1.0, 2.0, 0.0, 4.0]),
    ];
    let exchange = Exchange::from_assets("x", "dir", "", assets).unwrap();
    assert_eq!(exchange.get_timestamps(), &vec![DAY, 2 * DAY, 3 * DAY, 4 * DAY]);
    assert_eq!(exchange.get_value(0, 0, 0), Some(NAN_BITS));
    assert_eq!(exchange.get_value(0, 1, 0), Some(20.0f64.to_bits()));
    assert_eq!(exchange.get_value(0, 2, 0), Some(30.0f64.to_bits()));
    assert_eq!(exchange.get_value(0, 3, 0), Some(NAN_BITS));
    assert_eq!(exchange.get_return(0, 0), Some(StepReturn::Zero));
    assert_eq!(exchange.get_return(0, 1), Some(StepReturn::Zero));
    assert_eq!(ratio(exchange.get_return(0, 2)), 0.5);
    assert_eq!(exchange.get_return(0, 3), Some(StepReturn::Zero));
    assert_eq!(ratio(exchange.get_return(1, 1)), 1.0);
    assert_eq!(ratio(exchange.get_return(1, 2)), -1.0);
    assert_eq!(exchange.get_return(1, 3), Some(StepReturn::Zero));
    assert_eq!(ratio(exchange.get_return(1, 3)), 0.0);
}

#[test]
fn return_over_two_zero_closes_is_zero() {
    let assets = vec![series(0, "a", &[DAY, 2 * DAY], &[0.0, 0.0])];
    let exchange = Exchange::from_assets("x", "dir", "", assets).unwrap();
    assert_eq!(exchange.get_return(0, 1), Some(StepReturn::Zero));
    assert_eq!(ratio(exchange.get_return(0, 1)), 0.0);
}

#[test]
fn zero_timestamp_hides_its_row_and_those_after() {
    let assets = vec![series(0, "a", &[-DAY, 0, DAY], &[1.0, 2.0, 3.0])];
    let exchange = Exchange::from_assets("x", "dir", "", assets).unwrap();
    assert_eq!(exchange.get_timestamps(), &vec![-DAY, 0, DAY]);
    assert_eq!(exchange.get_value(0, 0, 0), Some(1.0f64.to_bits()));
    assert_eq!(exchange.get_value(0, 1, 0), Some(NAN_BITS));
    assert_eq!(exchange.get_value(0, 2, 0), Some(NAN_BITS));
    assert_eq!(exchange.get_return(0, 1), Some(StepReturn::Zero));
    assert_eq!(exchange.get_return(0, 2), Some(StepReturn::Zero));
}

#[test]
fn rebuilding_gives_the_same_collection() {
    let first = exchange1().unwrap();
    let second = exchange1().unwrap();
    assert_eq!(first.get_timestamps(), second.get_timestamps());
    for asset in 0..2 {
        for step in 0..6 {
            assert_eq!(first.get_return(asset, step), second.get_return(asset, step));
            for column in 0..2 {
                assert_eq!(first.get_value(asset, step, column), second.get_value(asset, step, column));
            }
        }
    }
}

#[test]
fn every_row_stands_at_its_step() {
    let stamps_a = [3 * DAY, 4 * DAY, 5 * DAY];
    let stamps_b = [DAY, 2 * DAY, 3 * DAY, 4 * DAY, 5 * DAY, 6 * DAY];
    let closes_a = [7.0, 8.0, 9.0];
    let closes_b = [1.0, 2.0, 3.0, 4.0, 5.0, 6.0];
    let assets = vec![series(0, "a", &stamps_a, &closes_a), series(1, "b", &stamps_b, &closes_b)];
    let exchange = Exchange::from_assets("x", "dir", "", assets).unwrap();
    let timeline = exchange.get_timestamps().clone();
    for (id, stamps, closes) in [(0, &stamps_a[..], &closes_a[..]), (1, &stamps_b[..], &closes_b[..])] {
        for (row, stamp) in stamps.iter().enumerate() {
            let steps: Vec<usize> = (0..timeline.len()).filter(|step| timeline[*step] == *stamp).collect();
            assert_eq!(steps.len(), 1);
            assert_eq!(exchange.get_value(id, steps[0], 0), Some(closes[row].to_bits()));
        }
        for step in 0..timeline.len() {
            if !stamps.contains(&timeline[step]) {
                assert_eq!(exchange.get_value(id, step, 0), Some(NAN_BITS));
                assert_eq!(exchange.get_return(id, step), Some(StepReturn::Zero));
            }
        }
    }
}

fn failure(assets: Vec<Asset>) -> String {
    match Exchange::from_assets("x", "dir", "", assets) {
        Err(AtlasError::ConsistencyError { msg }) => msg,
        _ => panic!("a consistency error was expected"),
    }
}

#[test]
fn consistency_error_names_the_first_fault() {
    let mut other = series(1, "b", &[1, 2], &[1.0, 2.0]);
    other.set_headers(vec!["open".to_string()]);
    let message = failure(vec![series(0, "a", &[1, 2], &[1.0, 2.0]), other]);
    assert_eq!(message, "asset headers do not match those of the exchange: b");
    let message = failure(vec![Asset::new(0, "price", vec![0], vec![1])]);
    assert_eq!(message, "close header not found in exchange: price");
    let message = failure(vec![
        series(0, "a", &[1, 2], &[1.0, 2.0]),
        series(1, "b", &[2, 2], &[1.0, 2.0]),
        series(2, "c", &[3, 2], &[1.0, 2.0]),
    ]);
    assert_eq!(message, "asset timestamps are not in ascending order: b");
    let message = failure(vec![
        series(0, "a", &[1, 2, 3], &[1.0, 2.0, 3.0]),
        series(1, "b", &[1, 3], &[1.0, 3.0]),
        series(2, "c", &[2, 4], &[1.0, 3.0]),
    ]);
    assert_eq!(message, "asset timestamps are not a contiguous subset of exchange timestamps: b");
}

#[test]
fn own_faults_are_found_before_gaps() {
    let message = failure(vec![
        series(0, "a", &[1, 3], &[1.0, 3.0]),
        series(1, "b", &[1, 2, 3], &[1.0, 2.0, 3.0]),
        series(2, "c", &[5, 4], &[1.0, 3.0]),
    ]);
    assert_eq!(message, "asset timestamps are not in ascending order: c");
}

#[test]
fn no_files_error_has_its_text() {
    match Exchange::from_assets("x", "dir", "", Vec::new()) {
        Err(error) => assert_eq!(error.to_string(), "Configuration error: no assets found in exchange"),
        Ok(_) => panic!("built from nothing"),
    }
}

#[test]
fn instrument_number_must_be_its_place() {
    let message = failure(vec![series(1, "a", &[1, 2], &[1.0, 2.0])]);
    assert_eq!(message, "asset id is not its place in the exchange: a");
    let message = failure(vec![series(0, "a", &[1, 2], &[1.0, 2.0]), series(0, "b", &[1, 2], &[1.0, 2.0])]);
    assert_eq!(message, "asset id is not its place in the exchange: b");
}

#[test]
fn return_after_a_zero_close_is_zero() {
    let assets = vec![series(0, "a", &[DAY, 2 * DAY, 3 * DAY], &[0.0, 5.0, 10.0])];
    let exchange = Exchange::from_assets("x", "dir", "", assets).unwrap();
    assert_eq!(exchange.get_return(0, 1), Some(StepReturn::Zero));
    assert_eq!(ratio(exchange.get_return(0, 1)), 0.0);
    assert_eq!(
        exchange.get_return(0, 2),
        Some(StepReturn::Change { previous: 5.0f64.to_bits(), current: 10.0f64.to_bits() })
    );
    assert_eq!(ratio(exchange.get_return(0, 2)), 1.0);
}

#[test]
fn return_after_a_negative_zero_close_is_zero() {
    let assets = vec![series(0, "a", &[DAY, 2 * DAY], &[-0.0, 5.0])];
    let exchange = Exchange::from_assets("x", "dir", "", assets).unwrap();
    assert_eq!(exchange.get_value(0, 0, 0), Some(0x8000_0000_0000_0000));
    assert_eq!(exchange.get_return(0, 1), Some(StepReturn::Zero));
}

#[test]
fn return_to_a_zero_close_is_a_change() {
    let assets = vec![series(0, "a", &[DAY, 2 * DAY], &[5.0, 0.0])];
    let exchange = Exchange::from_assets("x", "dir", "", assets).unwrap();
    assert_eq!(ratio(exchange.get_return(0, 1)), -1.0);
}

fn names(exchange: &Exchange) -> Vec<String> {
    exchange.get_assets().iter().map(|asset| asset.get_name().to_string()).collect()
}

#[test]
fn instruments_are_numbered_by_name() {
    let files = vec![
        file("b.csv", &ASSET2_CLOSE),
        file("ab.csv", &ASSET1_CLOSE),
        file("a.csv", &ASSET1_CLOSE),
        file("B.csv", &ASSET1_CLOSE),
    ];
    let exchange = Exchange::new("x", "dir", DATETIME_FORMAT, &files, &bits).unwrap();
    assert_eq!(names(&exchange), vec!["B", "a", "ab", "b"]);
    for (place, asset) in exchange.get_assets().iter().enumerate() {
        assert_eq!(asset.get_id(), place);
    }
    assert_eq!(exchange.get_asset("b").unwrap().get_rows(), 6);
    assert_eq!(exchange.get_value(3, 5, 1), Some(96.0f64.to_bits()));
    assert_eq!(exchange.get_value(1, 5, 1), Some(NAN_BITS));
}

#[test]
fn numbers_follow_the_stem_and_not_the_file_name() {
    let files = vec![file("a-b.csv", &ASSET1_CLOSE), file("a.csv", &ASSET2_CLOSE)];
    let exchange = Exchange::new("x", "dir", DATETIME_FORMAT, &files, &bits).unwrap();
    assert_eq!(names(&exchange), vec!["a", "a-b"]);
    assert_eq!(exchange.get_assets()[0].get_rows(), 6);
}

#[test]
fn files_of_one_stem_keep_their_order() {
    let files = vec![
        file("z.csv", &ASSET1_CLOSE),
        file("a.txt", &ASSET2_CLOSE),
        file("a.csv", &ASSET1_CLOSE),
    ];
    let exchange = Exchange::new("x", "dir", DATETIME_FORMAT, &files, &bits).unwrap();
    assert_eq!(names(&exchange), vec!["a", "a", "z"]);
    assert_eq!(exchange.get_assets()[0].get_source(), Some("tests/exchanges/exchange1/a.txt"));
    assert_eq!(exchange.get_assets()[1].get_source(), Some("tests/exchanges/exchange1/a.csv"));
    assert_eq!(exchange.get_asset("a").unwrap().get_id(), 1);
}

#[test]
fn order_of_the_files_does_not_change_the_collection() {
    let forward = vec![file("a.csv", &ASSET1_CLOSE), file("b.csv", &ASSET2_CLOSE)];
    let backward = vec![file("b.csv", &ASSET2_CLOSE), file("a.csv", &ASSET1_CLOSE)];
    let first = Exchange::new("x", "dir", DATETIME_FORMAT, &forward, &bits).unwrap();
    let second = Exchange::new("x", "dir", DATETIME_FORMAT, &backward, &bits).unwrap();
    assert_eq!(names(&first), names(&second));
    for asset in 0..2 {
        for step in 0..6 {
            assert_eq!(first.get_value(asset, step, 1), second.get_value(asset, step, 1));
            assert_eq!(first.get_return(asset, step), second.get_return(asset, step));
        }
    }
}

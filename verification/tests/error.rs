use atlas_core::standard::{string_to_nanoseconds_epoch, AtlasError};

#[test]
fn io_error_becomes_io_kind() {
    let error = std::io::Error::new(std::io::ErrorKind::NotFound, "missing");
    let text = error.to_string();
    assert_eq!(AtlasError::from(error), AtlasError::IOError { msg: text });
}

#[test]
fn chrono_error_becomes_parse_kind() {
    let error = string_to_nanoseconds_epoch("x", "%Y").unwrap_err();
    let text = error.to_string();
    assert_eq!(AtlasError::from(error), AtlasError::ParseError { msg: text });
}

#[test]
fn number_errors_become_parse_kind() {
    let error = "x".parse::<i32>().unwrap_err();
    let text = error.to_string();
    assert_eq!(AtlasError::from(error), AtlasError::ParseError { msg: text });
    let error = "x".parse::<f64>().unwrap_err();
    let text = error.to_string();
    assert_eq!(AtlasError::from(error), AtlasError::ParseError { msg: text });
}

#[test]
fn csv_error_becomes_parse_kind() {
    let mut reader = csv::ReaderBuilder::new().has_headers(false).from_reader("a,b\nc\n".as_bytes());
    let error = reader.records().find_map(|record| record.err()).unwrap();
    let text = error.to_string();
    assert_eq!(AtlasError::from(error), AtlasError::ParseError { msg: text });
}

#[test]
fn error_renders_kind_and_text() {
    assert_eq!(AtlasError::configuration("a").to_string(), "Configuration error: a");
    assert_eq!(AtlasError::IOError { msg: "b".to_string() }.to_string(), "IO error: b");
    assert_eq!(AtlasError::ParseError { msg: "c".to_string() }.to_string(), "ParseError: c");
    let error = AtlasError::ConsistencyError { msg: "d".to_string() };
    assert_eq!(error.to_string(), "Consistency error: d");
    assert_eq!(error.message(), "d");
    assert_eq!(AtlasError::configuration("a"), AtlasError::ConfigurationError { msg: "a".to_string() });
}

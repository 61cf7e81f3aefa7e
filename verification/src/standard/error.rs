//! The error type of the crate, and how errors of other crates turn into it.

use vstd::prelude::*;
use vstd::std_specs::convert::FromSpecImpl;
use vstd::string::to_string_from_display_ensures;

verus! {

/// `std::io::Error`, carried through as it is.
#[verifier::external_type_specification]
#[verifier::external_body]
pub struct ExIoError(std::io::Error);

/// `csv::Error`, carried through as it is.
#[verifier::external_type_specification]
#[verifier::external_body]
pub struct ExCsvError(csv::Error);

/// `chrono::format::ParseError`, carried through as it is.
#[verifier::external_type_specification]
#[verifier::external_body]
pub struct ExChronoParseError(chrono::format::ParseError);

/// `std::num::ParseIntError`, carried through as it is.
#[verifier::external_type_specification]
#[verifier::external_body]
pub struct ExParseIntError(std::num::ParseIntError);

/// `std::num::ParseFloatError`, carried through as it is.
#[verifier::external_type_specification]
#[verifier::external_body]
pub struct ExParseFloatError(std::num::ParseFloatError);

/// Why a collection of instruments could not be built.
#[derive(Debug, PartialEq, Eq)]
pub enum AtlasError {
    /// The source yields nothing to build from, or more than memory can hold.
    ConfigurationError { msg: String },
    /// A source could not be read.
    IOError { msg: String },
    /// A table, a timestamp or a numeric cell is malformed.
    ParseError { msg: String },
    /// The instruments do not fit together: schemas differ, timestamps do not
    /// increase, the close column is missing, or a series has a gap.
    ConsistencyError { msg: String },
}

impl AtlasError {
    /// The text that the error carries.
    pub open spec fn msg(self) -> Seq<char> {
        match self {
            AtlasError::ConfigurationError { msg } => msg@,
            AtlasError::IOError { msg } => msg@,
            AtlasError::ParseError { msg } => msg@,
            AtlasError::ConsistencyError { msg } => msg@,
        }
    }

    /// The name of the kind of error, as it opens the rendered text.
    pub open spec fn label(self) -> Seq<char> {
        match self {
            AtlasError::ConfigurationError { .. } => "Configuration error"@,
            AtlasError::IOError { .. } => "IO error"@,
            AtlasError::ParseError { .. } => "ParseError"@,
            AtlasError::ConsistencyError { .. } => "Consistency error"@,
        }
    }

    /// A configuration error with the text `msg`.
    pub fn configuration(msg: &str) -> (e: AtlasError)
        ensures
            e is ConfigurationError,
            e.msg() == msg@,
    {
        AtlasError::ConfigurationError { msg: String::from_str(msg) }
    }

    /// The text that the error carries.
    pub fn message(&self) -> (msg: &String)
        ensures
            msg@ == self.msg(),
    {
        match self {
            AtlasError::ConfigurationError { msg } => msg,
            AtlasError::IOError { msg } => msg,
            AtlasError::ParseError { msg } => msg,
            AtlasError::ConsistencyError { msg } => msg,
        }
    }

    /// Renders the error as its kind, a colon and its text.
    pub fn to_string(&self) -> (text: String)
        ensures
            text@ == self.label() + ": "@ + self.msg(),
    {
        let label = match self {
            AtlasError::ConfigurationError { .. } => "Configuration error",
            AtlasError::IOError { .. } => "IO error",
            AtlasError::ParseError { .. } => "ParseError",
            AtlasError::ConsistencyError { .. } => "Consistency error",
        };
        String::from_str(label).concat(": ").concat(self.message().as_str())
    }
}

impl From<std::io::Error> for AtlasError {
    /// An error of the operating system becomes an `IOError` with its text.
    fn from(error: std::io::Error) -> (e: AtlasError)
        ensures
            e matches AtlasError::IOError { msg } && to_string_from_display_ensures::<
                std::io::Error,
            >(&error, msg),
    {
        AtlasError::IOError { msg: error.to_string() }
    }
}

impl FromSpecImpl<std::io::Error> for AtlasError {
    open spec fn obeys_from_spec() -> bool {
        false
    }

    open spec fn from_spec(v: std::io::Error) -> AtlasError {
        arbitrary()
    }
}

impl From<csv::Error> for AtlasError {
    /// What the table reader rejects becomes a `ParseError` with its text.
    fn from(error: csv::Error) -> (e: AtlasError)
        ensures
            e matches AtlasError::ParseError { msg } && to_string_from_display_ensures::<
                csv::Error,
            >(&error, msg),
    {
        AtlasError::ParseError { msg: error.to_string() }
    }
}

impl FromSpecImpl<csv::Error> for AtlasError {
    open spec fn obeys_from_spec() -> bool {
        false
    }

    open spec fn from_spec(v: csv::Error) -> AtlasError {
        arbitrary()
    }
}

impl From<chrono::format::ParseError> for AtlasError {
    /// A timestamp that does not parse becomes a `ParseError` with its text.
    fn from(error: chrono::format::ParseError) -> (e: AtlasError)
        ensures
            e matches AtlasError::ParseError { msg } && to_string_from_display_ensures::<
                chrono::format::ParseError,
            >(&error, msg),
    {
        AtlasError::ParseError { msg: error.to_string() }
    }
}

impl FromSpecImpl<chrono::format::ParseError> for AtlasError {
    open spec fn obeys_from_spec() -> bool {
        false
    }

    open spec fn from_spec(v: chrono::format::ParseError) -> AtlasError {
        arbitrary()
    }
}

impl From<std::num::ParseIntError> for AtlasError {
    /// An integer that does not parse becomes a `ParseError` with its text.
    fn from(error: std::num::ParseIntError) -> (e: AtlasError)
        ensures
            e matches AtlasError::ParseError { msg } && to_string_from_display_ensures::<
                std::num::ParseIntError,
            >(&error, msg),
    {
        AtlasError::ParseError { msg: error.to_string() }
    }
}

impl FromSpecImpl<std::num::ParseIntError> for AtlasError {
    open spec fn obeys_from_spec() -> bool {
        false
    }

    open spec fn from_spec(v: std::num::ParseIntError) -> AtlasError {
        arbitrary()
    }
}

impl From<std::num::ParseFloatError> for AtlasError {
    /// A number that does not parse becomes a `ParseError` with its text.
    fn from(error: std::num::ParseFloatError) -> (e: AtlasError)
        ensures
            e matches AtlasError::ParseError { msg } && to_string_from_display_ensures::<
                std::num::ParseFloatError,
            >(&error, msg),
    {
        AtlasError::ParseError { msg: error.to_string() }
    }
}

impl FromSpecImpl<std::num::ParseFloatError> for AtlasError {
    open spec fn obeys_from_spec() -> bool {
        false
    }

    open spec fn from_spec(v: std::num::ParseFloatError) -> AtlasError {
        arbitrary()
    }
}

} // verus!

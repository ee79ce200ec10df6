//! Reading vocabulary from JSON and CSV text.
use vstd::prelude::*;
use crate::text::concat;

pub mod csv;
pub mod json;

pub use self::csv::{parse_csv, parse_csv_table, CsvImportReport, CsvRowError, CsvTable};
pub use self::json::{parse_json_bundle, parse_json_canonical, BundleImport};

verus! {

/// Everything that can go wrong while reading vocabulary text.
#[derive(Debug, Clone, PartialEq, Eq)]
pub enum ParseError {
    /// The JSON text, or its shape, was not accepted; the message says why.
    Json(String),
    /// The CSV reader rejected the text; the message says why.
    Csv(String),
    /// The text was read but its content breaks a rule.
    InvalidData(String),
}

/// The text of a parse error.
pub open spec fn parse_error_message(e: ParseError) -> Seq<char> {
    match e {
        ParseError::Json(m) => "json parse error: "@ + m@,
        ParseError::Csv(m) => "csv parse error: "@ + m@,
        ParseError::InvalidData(m) => "invalid data: "@ + m@,
    }
}

impl ParseError {
    /// The human-readable text of this error.
    pub fn to_string(&self) -> (r: String)
        ensures
            r@ == parse_error_message(*self),
    {
        match self {
            ParseError::Json(m) => concat("json parse error: ", m.as_str()),
            ParseError::Csv(m) => concat("csv parse error: ", m.as_str()),
            ParseError::InvalidData(m) => concat("invalid data: ", m.as_str()),
        }
    }
}

} // verus!

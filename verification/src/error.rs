//! The error type of the splitter.

use vstd::prelude::*;

verus! {

/// Declares `std::io::Error`, carried by [`FileSplitError::Io`].
#[verifier::external_type_specification]
#[verifier::external_body]
pub struct ExIoError(std::io::Error);

/// Declares `csv::Error`, carried by [`FileSplitError::CsvParse`].
#[verifier::external_type_specification]
#[verifier::external_body]
pub struct ExCsvError(csv::Error);

/// Everything that can make a split fail.
#[derive(Debug)]
pub enum FileSplitError {
    /// Neither a size nor a row count was given.
    MissingMode,
    /// The input file does not exist; holds its path.
    FileNotFound(String),
    /// A size string could not be read; holds the reason.
    InvalidSize(String),
    /// The delimiter is not a single ASCII character; holds it.
    InvalidDelimiter(String),
    /// The output directory could not be created; holds its path.
    OutputDirError(String),
    /// Reading or writing failed.
    Io(std::io::Error),
    /// A CSV record could not be read or written.
    CsvParse { row: u64, source: csv::Error },
    /// The JSON report could not be written; holds the reason.
    ReportWrite(String),
}

} // verus!

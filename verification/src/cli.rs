//! The options of a split, as the command line gives them.

use vstd::prelude::*;
use crate::error::FileSplitError;

verus! {

/// How the input is to be read.
#[derive(Debug, Clone, Copy, PartialEq, Eq, Structural)]
pub enum FileFormat {
    /// Decided from the file's extension.
    Auto,
    /// Comma-separated values, with quoted fields kept whole.
    Csv,
    /// Tab-separated values.
    Tsv,
    /// Plain text, split on line ends only.
    Text,
}

/// The options of one split. Paths are held as the text that names them.
#[derive(Debug)]
pub struct Cli {
    /// The file to split.
    pub file: String,
    /// The largest size of a chunk, such as `100MB`.
    pub size: Option<String>,
    /// The largest number of data rows in a chunk.
    pub rows: Option<u64>,
    /// How the input is read.
    pub format: FileFormat,
    /// The field delimiter of CSV input.
    pub delimiter: char,
    /// Whether the header row is copied into every chunk.
    pub preserve_header: bool,
    /// The directory of the chunks (by default that of the input).
    pub output: Option<String>,
    /// The start of chunk file names (by default the input's stem).
    pub prefix: Option<String>,
    /// The end of chunk file names (by default the input's extension).
    pub suffix: Option<String>,
    /// The zero-padded width of part numbers.
    pub digits: usize,
    /// Where a JSON report of the split is written, if anywhere.
    pub report: Option<String>,
    /// Whether progress output is left out.
    pub quiet: bool,
    /// Whether each finished chunk is reported.
    pub verbose: bool,
}

impl Cli {
    /// Checks that exactly one split mode is given (a size or a row count)
    /// and that the input exists; `file_exists` says whether a file is found
    /// at `self.file`.
    pub fn validate(&self, file_exists: bool) -> (r: Result<(), FileSplitError>)
        ensures
            (self.size is Some) == (self.rows is Some) ==> r matches Err(FileSplitError::MissingMode),
            (self.size is Some) != (self.rows is Some) && !file_exists ==> (r matches Err(
                FileSplitError::FileNotFound(path),
            ) && path@ == self.file@),
            (self.size is Some) != (self.rows is Some) && file_exists ==> r is Ok,
    {
        if self.size.is_some() == self.rows.is_some() {
            return Err(FileSplitError::MissingMode);
        }
        if !file_exists {
            return Err(FileSplitError::FileNotFound(self.file.clone()));
        }
        Ok(())
    }
}

} // verus!

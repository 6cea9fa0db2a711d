//! Row-safe splitting of CSV and text files into numbered chunks: the size and
//! mode parsing, the naming of chunk files, the encoding of rows and the greedy
//! chunk planner, each with its contract.

pub mod cli;
pub mod config;
pub mod error;
pub mod format;
pub mod planner;
pub mod report;
pub mod splitter;
pub mod strings;

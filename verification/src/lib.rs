//! Read STDF V4 and V4-2007 semiconductor test data files and write them as JSON Lines.
//!
//! Parsing of the binary records is done by `rust_stdf`. This library holds the logic
//! around it: which record types a filter keeps, where each record sits in the file,
//! the name of each record type, how output files are named, and the JSON text that
//! every value becomes.

use vstd::prelude::*;

pub mod filter;
pub mod json;
pub mod paths;
pub mod record_types;
pub mod records;
pub mod strings;
pub mod text;

pub use filter::{record_filter, RecordFilter};
pub use paths::{output_path, stem};
pub use record_types::{record_type_name, record_types};
pub use records::{Record, RecordCursor};

verus! {

/// `std::path::PathBuf`, carried in errors.
#[verifier::external_type_specification]
#[verifier::external_body]
pub struct ExPathBuf(std::path::PathBuf);

/// `std::io::Error`, carried in errors.
#[verifier::external_type_specification]
#[verifier::external_body]
pub struct ExIoError(std::io::Error);

/// The ways reading or converting an STDF file can fail.
#[derive(Debug)]
pub enum Error {
    /// The file could not be opened as STDF.
    Open { path: std::path::PathBuf, msg: String },
    /// A record could not be read.
    Read(String),
    /// A record type filter named a type that does not exist (the name is upper-cased).
    UnknownRecordType(String),
    /// Reading or writing a file failed.
    File { path: std::path::PathBuf, source: std::io::Error },
    /// Writing the output failed.
    Io(std::io::Error),
}

} // verus!

//! The library's error type.

use vstd::prelude::*;

verus! {

/// `std::io::Error`, carried through unchanged.
#[verifier::external_type_specification]
#[verifier::external_body]
pub struct ExIoError(std::io::Error);

/// `csv::Error`, carried through unchanged.
#[verifier::external_type_specification]
#[verifier::external_body]
pub struct ExCsvError(csv::Error);

/// `office_oxide::OfficeError`, carried through unchanged.
#[verifier::external_type_specification]
#[verifier::external_body]
pub struct ExOfficeError(office_oxide::OfficeError);

/// Everything that can make a parse fail.
#[derive(Debug)]
pub enum ParseError {
    /// Reading or writing a file failed.
    Io(std::io::Error),
    /// The input's extension is not one the parser handles.
    UnsupportedExtension(String),
    /// The input has no (UTF-8) extension; holds the path.
    MissingExtension(String),
    /// The office document reader failed.
    Office(office_oxide::OfficeError),
    /// The OOXML container could not be read as a zip.
    Zip(String),
    /// The PDF could not be read.
    Pdf(String),
    /// The CSV / TSV input could not be read.
    Csv(csv::Error),
    /// The text could not be decoded.
    Encoding(String),
    /// Archive extraction failed.
    Archive(String),
    /// An archive input is larger than the configured limit.
    ArchiveTooLarge { size: u64, limit: u64 },
}

} // verus!

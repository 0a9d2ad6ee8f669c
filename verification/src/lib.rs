//! Unified file parser.
//!
//! Given an input file, the parser recognises its kind by extension and
//! produces a folder with one Markdown file per page / sheet / slide /
//! section (named like `page-001.md`, `section-002-Sheet1.md`) and an
//! `images/` folder with every embedded image in its native format.
//!
//! This crate holds the verified part: recognising inputs, naming outputs,
//! decoding text, rendering Markdown and the file tree, and splitting long
//! documents.  Reading and writing files stays with the caller.

pub mod error;
pub mod format;
pub mod office;
pub mod output;
pub mod pdf;
pub mod text;
pub mod util;

pub use error::ParseError;
pub use format::FileKind;

use vstd::prelude::*;

verus! {

/// Default upper bound for archive inputs: 1 GiB.
///
/// Archive extraction is bounded because a single parse fans out into an
/// arbitrary number of files on disk; the limit only applies to inputs
/// recognised as archives.
pub const DEFAULT_MAX_ARCHIVE_BYTES: u64 = 1024 * 1024 * 1024;

/// Tunables for a parse.
#[derive(Debug, Clone)]
pub struct ParseOptions {
    /// Maximum allowed size, in bytes, for archive inputs.  Larger inputs
    /// are rejected with [`ParseError::ArchiveTooLarge`] before any
    /// extraction starts.  Non-archive inputs ignore this field.
    pub max_archive_bytes: u64,
    /// Optional password for encrypted archives; `None` means no password.
    pub archive_password: Option<String>,
}

impl Default for ParseOptions {
    fn default() -> (r: Self)
        ensures
            r.max_archive_bytes == DEFAULT_MAX_ARCHIVE_BYTES,
            r.archive_password is None,
    {
        ParseOptions { max_archive_bytes: DEFAULT_MAX_ARCHIVE_BYTES, archive_password: None }
    }
}

/// Whether an input of the given kind and size is within the limit: only
/// archives are size-checked, and a size equal to the limit is accepted.
pub open spec fn input_size_ok(kind: FileKind, size: u64, limit: u64) -> bool {
    !(kind == FileKind::Archive && size > limit)
}

/// Rejects an archive input whose size exceeds the configured limit;
/// every other input (and every archive within the limit) passes.
pub fn check_input_size(kind: FileKind, size: u64, opts: &ParseOptions) -> (r: Result<(), ParseError>)
    ensures
        r is Ok <==> input_size_ok(kind, size, opts.max_archive_bytes),
        r matches Err(e) ==> e matches ParseError::ArchiveTooLarge { size: s, limit: l } && s == size
            && l == opts.max_archive_bytes,
{
    if kind == FileKind::Archive && size > opts.max_archive_bytes {
        return Err(ParseError::ArchiveTooLarge { size, limit: opts.max_archive_bytes });
    }
    Ok(())
}

/// The archive limit only matters for archives above it: for an input
/// that is not an archive, or whose size is within both limits, two limits
/// give the same verdict.
pub proof fn lemma_limit_only_bounds_archives(kind: FileKind, size: u64, l1: u64, l2: u64)
    requires
        kind != FileKind::Archive || (size <= l1 && size <= l2),
    ensures
        input_size_ok(kind, size, l1) && input_size_ok(kind, size, l2),
{
}

} // verus!

//! Application-level error type.

use vstd::prelude::*;

verus! {

/// Errors surfaced by the library.
///
/// `SnapshotParsing` marks malformed snapshot text, `ChecksumParsing` a
/// malformed checksum literal, `SnapshotValidation` wraps a validation
/// error, `Fs` a path-normalization failure, `Io` an unreadable
/// filesystem state, and `Cmd` bad command usage.
#[derive(Debug, Clone, PartialEq, Eq)]
pub enum AppError {
    SnapshotParsing,
    ChecksumParsing,
    SnapshotValidation(crate::snapshot::validation::Error),
    Fs(String),
    Io(String),
    Cmd(String),
}

} // verus!

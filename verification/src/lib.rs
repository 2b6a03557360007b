//! Duplicate-file deduplication library.
//!
//! Given the contents of a directory tree, the scanner groups files with
//! identical contents; the text codec renders those groups as an editable
//! snapshot document and parses an edited document back; the validator
//! checks an edited snapshot against the observed state of the filesystem
//! and computes the list of actions to perform.

pub mod error;
pub mod executor;
pub mod fileutil;
pub mod fsview;
pub mod hash;
pub mod scanner;
pub mod snapshot;
pub mod strutil;

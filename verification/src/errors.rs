//! Error values returned by the store. All failures are reported as values;
//! none is used for control flow inside the store.

use vstd::prelude::*;

verus! {

/// Loading the persisted content failed.
#[derive(Debug, PartialEq, Eq)]
pub enum ParseError {
    /// A non-blank line does not have the form `name::path` with exactly one
    /// delimiter occurrence and both sides non-empty. Carries the offending
    /// line.
    MalformedLine(String),
    /// Two lines of the persisted content carry the same name. Carries the
    /// repeated name.
    DuplicateName(String),
}

/// Adding an entry failed; the store is left unchanged.
#[derive(Debug, PartialEq, Eq)]
pub enum AddError {
    /// An entry with this name already exists; carries the path it maps to.
    DuplicateName { existing_path: String },
    /// The path does not exist on the filesystem.
    PathNotFound { path: String },
    /// The name or the normalized path contains the delimiter.
    InvalidCharacters,
}

/// Removing an entry failed; the store is left unchanged.
#[derive(Debug, PartialEq, Eq)]
pub enum RemoveError {
    /// No entry with the given name exists.
    NotFound,
}

} // verus!

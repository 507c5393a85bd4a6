//! Core of a version-bump tool: parse a version string with a configurable
//! pattern, increment one named component and reset the ones after it,
//! re-serialize through a template, substitute the new version into project
//! files, and assemble the tree, commit and reference updates that record the
//! change.

use vstd::prelude::*;

pub mod cli;
pub mod pattern;
pub mod repo;
pub mod text;
pub mod tree;
pub mod utils;
pub mod version;

verus! {

/// The failures the tool can report.  Every one is fatal at the point of
/// detection; the pipeline never retries.
#[derive(Clone, Copy, Debug, PartialEq, Eq, Structural)]
pub enum BumpError {
    /// The version pattern is invalid or did not match the current version.
    Pattern,
    /// The component to bump does not hold a decimal numeral it can increment.
    NonNumericComponent,
    /// A name referenced by the serialization template has no parsed value.
    Serialization,
    /// A target file does not contain the current version string verbatim.
    MissingVersionInFile,
    /// The working tree holds changes beyond the files about to be committed.
    DirtyWorkingTree,
    /// The branch reference moved between the initial read and the update.
    RefConflict,
    /// A tag reference with the requested name already exists.
    DuplicateTag,
}

} // verus!

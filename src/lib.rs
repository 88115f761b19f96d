//! Parsing of unified diffs into a navigable model: a patch set holds files,
//! a file holds hunks, a hunk holds lines numbered on each side.
pub mod text;
pub mod grammar;
pub mod line;
pub mod hunk;
pub mod file;
pub mod patchset;
pub mod laws;
pub mod reparse;

pub use line::{Error, Line, LINE_TYPE_ADDED, LINE_TYPE_CONTEXT, LINE_TYPE_EMPTY, LINE_TYPE_REMOVED};
pub use hunk::Hunk;
pub use file::PatchedFile;
pub use patchset::PatchSet;

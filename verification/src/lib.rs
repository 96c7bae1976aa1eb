//! An in-memory, queryable picture of a source workspace: which files import
//! which other files, where symbols are declared, and a fast name-search index
//! over all files.
//!
//! The library is pure: traversal of the filesystem and file reads happen in
//! the surrounding application, which hands each file's path, size and text to
//! the indexing and graph-building functions here.

pub mod analyzer;
pub mod extract;
pub mod graph;
pub mod index;
pub mod paths;
pub mod text;
pub mod workspace;



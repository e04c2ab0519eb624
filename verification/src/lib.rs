//! A file-level import dependency graph builder.
//!
//! Given an immutable universe of tracked file paths, the text of the
//! code-bearing files among them, and the outcome of resolving each relative
//! import specifier, the walker builds a directed graph with one node per
//! tracked file and one edge per resolved relative import.

pub mod extract;
pub mod graph;
pub mod imports;
pub mod laws;
pub mod resolve;
pub mod strings;
pub mod walker;

//! The scanned repository: files and the directed dependencies among them.

use vstd::prelude::*;

verus! {

/// A file found by the scanner.
#[derive(Debug, Clone)]
pub struct FileEntry {
    pub path: String,
    pub lines: usize,
    pub language: String,
}

/// A directed dependency: `from` depends on `to`.
#[derive(Debug, Clone)]
pub struct DependencyEdge {
    pub from: String,
    pub to: String,
}

} // verus!

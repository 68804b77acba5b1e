//! Crates and the ways in which one crate depends on another.

use vstd::prelude::*;

verus! {

/// One version of a crate, as the index names it.
#[derive(Debug, Clone, Hash, PartialEq, Eq)]
pub struct CrateInfo {
    pub name: String,
    pub version: String,
}

/// One version of a crate, as a node of the dependency graph.
#[derive(Clone, Debug, PartialEq, Eq, Hash)]
pub struct CrateNode {
    pub name: String,
    pub version: String,
}

/// What a crate needs another crate for.
#[derive(Copy, Clone, Debug, PartialEq, Eq, Structural, Hash)]
pub enum DependType {
    Build,
    Runtime,
    Dev,
}

/// An edge of the dependency graph.
#[derive(Debug, PartialEq, Eq, Hash)]
pub struct DependsEdge {
    pub ty: DependType,
}

/// Why no call graph could be made.
#[derive(Debug, Clone, PartialEq, Eq)]
pub enum PainterError {
    /// Reading failed; the message says how
    IoError(String),
    /// The text is no graph description; the message says why
    DotParseError(String),
    /// The graph description is not that of a directed graph
    UnsupportedDotFile,
    /// An edge names a node that the graph description does not hold
    GraphConstructionError,
    /// The module could not be read; the message says why
    LLVMError(String),
}

} // verus!

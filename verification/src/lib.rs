//! Static analyses over an intermediate-representation program: control-flow
//! graphs, dominator and postdominator trees, control-dependence graphs and
//! call graphs, each computed on first use and kept for the owner's lifetime.
//!
//! Around the analyses stand the rules of a tool that applies them to the
//! crates of a package index: how the calls of a crate are named and which
//! of them are kept, how a crate's full name splits into name and version,
//! which crates are kept open, and which fields of a version number are
//! stored.

pub mod analysis;
pub mod call_graph;
pub mod calls;
pub mod control_dep_graph;
pub mod control_flow_graph;
pub mod count_unsafe;
pub mod crate_fs;
pub mod db;
pub mod depends;
pub mod dominance;
pub mod dominator_tree;
pub mod dot;
pub mod error;
pub mod functions_by_type;
pub mod graph;
pub mod ir;
pub mod node_table;

pub use crate::analysis::CrossModuleAnalysis;
pub use crate::analysis::FunctionAnalysis;
pub use crate::analysis::ModuleAnalysis;
pub use crate::analysis::SimpleCache;
pub use crate::call_graph::CallGraph;
pub use crate::calls::extract_calls;
pub use crate::control_dep_graph::ControlDependenceGraph;
pub use crate::control_flow_graph::ControlFlowGraph;
pub use crate::dominator_tree::DominatorTree;
pub use crate::dominator_tree::PostDominatorTree;
pub use crate::error::AnalysisError;
pub use crate::functions_by_type::FunctionsByType;
pub use crate::node_table::CFGNode;

//! Load-order planning for a shared library and its transitive dependencies.
//!
//! Library names are interned into dense identifiers, a "must be loaded
//! before" graph is built over them, the graph is topologically sorted, and
//! the outcome is turned back into a name-keyed, deterministically ordered
//! plan.

pub mod dep_graph;
pub mod dot;
pub mod graph;
pub mod id_gen;
pub mod order;
pub mod plan;
pub mod tree;

pub use dep_graph::DependencyGraph;
pub use dot::export_to_dot;
pub use id_gen::IdGen;
pub use plan::{get_topologically_sorted_result, CycleError, Edge, Lib, TopoSortResult};
pub use tree::{DependencyTree, Library, LibraryMap};

//! A decision-graph evaluation engine.
//!
//! A decision graph is a directed acyclic graph of nodes (input, output,
//! decision tables, pass-through) joined by edges. Evaluating the graph
//! threads a JSON-like data context through the nodes in topological order;
//! decision-table nodes match rules against the context and merge the
//! matching rows' outputs according to a hit policy.
//!
//! Each component states its behaviour as spec functions; the executable
//! functions carry contracts proved against them. Private executable
//! helpers whose names end in `_x` mirror the spec function of the same
//! base name.

pub mod value;
pub mod fields;
pub mod expr;
pub mod table;
pub mod graph;
pub mod engine;

pub use value::Value;

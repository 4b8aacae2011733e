//! Directed acyclic graphs of wrapping `u32` arithmetic, with hint nodes for
//! operations outside addition and multiplication, and equality constraints
//! checked after evaluation.
pub mod comp_graph;
pub mod laws;

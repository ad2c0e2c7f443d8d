//! Lowering of structured, suspension-aware statement lists into control-flow
//! graphs, and the simplification of those graphs.

pub mod ast;
pub mod builder;
pub mod cfg;
pub mod format;
pub mod graph;

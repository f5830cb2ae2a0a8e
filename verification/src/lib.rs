//! Flowspec analysis core: the symbol graph, diagnostic types, and the
//! pattern detectors that query the graph.

pub mod conversion;
pub mod diagnostic;
pub mod double;
pub mod extraction;
pub mod flow;
pub mod graph;
pub mod ir;
pub mod path;
pub mod patterns;
pub mod text;

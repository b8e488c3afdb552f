//! Compiles a context-free grammar into a fragment graph, simplifies that
//! graph to a fixed point, and expands it into random sentences under a
//! depth bound.
pub mod builder;
pub mod emit;
pub mod generator;
pub mod ir;
pub mod language;
pub mod optimizer;

//! The nodes of a render graph.
pub mod frame;

//! A small, deliberately fixed vocabulary for building render graphs from text.
//!
//! Statements are evaluated in order, so references must be defined before use. The
//! render configuration supplies the final frame limit.
pub mod construct;
pub mod grammar_laws;
pub mod graph;
pub mod laws;
pub mod lex;
pub mod lex_laws;
pub mod node_laws;
pub mod parse;
pub mod refusal_laws;
pub mod spelling;

pub use construct::{build_plan, DslError};

pub mod text;
pub mod graph;
pub mod pattern;
pub mod source;
pub mod analyze;
pub mod callee;
pub mod caller;

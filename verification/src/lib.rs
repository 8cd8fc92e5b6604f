//! An in-memory property graph: nodes carrying labels, bonds (directed,
//! labelled edges) between them, an index from node id to storage slot,
//! and the queries that walk them.

pub mod ids;
pub mod text;
pub mod core_model;
pub mod datamodel;
pub mod laws;

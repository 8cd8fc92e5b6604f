//! The first, minimal shape of the graph document model.

pub mod core_model;

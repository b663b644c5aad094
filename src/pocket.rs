//! Faces bounded by segments and arcs: their extraction from paths.
pub mod pocket_builder;

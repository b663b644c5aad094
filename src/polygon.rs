//! Oriented polygons: extraction of their faces from planar graphs.
pub mod polygon_builder;

//! grouille: the combinatorial core of a slicing pipeline for CNC machines.
//!
//! Coordinates are fixed-point integers; everything that walks, sweeps,
//! classifies or snaps is proved against its contract.
pub mod classifier;
pub mod hashes;
pub mod holed_polygon;
pub mod overlap;
pub mod pocket;
pub mod point;
pub mod polygon;
pub mod segment;
pub mod stl;
pub mod utils;

//! Verified core of a 2.5D mapping toolkit: point clouds, heightmaps built
//! from them, and the text formats both are stored in.
//!
//! Heights and coordinates are IEEE-754 binary32 values. The library keeps
//! them as their bit patterns (`u32`) and decides on them (unknown cells,
//! orderings, bins, ranges) with the predicates of `data_types::float_bits`;
//! arithmetic on the values is handed in by the caller.
pub mod analysis;
pub mod aruco;
pub mod data_types;

pub mod float_bits;
pub mod heightmap;
pub mod laws;
pub mod pointcloud;
pub mod text;

//! A sparse voxel octree kept as a flat array of tagged 32-bit entries, with
//! in-place subdivision and collapse, point location, block recycling, and
//! loaders for two voxel file formats.

pub mod entry;
pub mod laws;
pub mod loader;
pub mod locate;
pub mod octree;

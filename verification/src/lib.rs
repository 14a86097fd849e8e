//! Voxel chunk storage and greedy surface meshing.
//!
//! A `ChunkData` is a dense cubic grid of boolean occupancy values with
//! bounds-checked accessors and a verified linearization of 3D coordinates.
//! The mesher converts a chunk into `MeshBuffers`: four parallel buffers
//! (positions, normals, texture coordinates, triangle indices) describing the
//! visible surface of the occupied cells, with adjacent coplanar faces merged
//! into maximal rectangles to keep the triangle count low. Geometry lives on
//! the integer voxel-boundary lattice, so every coordinate is exact; a
//! rendering backend converts to its own floating-point vertex format at the
//! upload boundary.

pub mod laws;
pub mod mesh;
pub mod mesher;
pub mod render_config;
pub mod volume;

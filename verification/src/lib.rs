//! Sparse voxel volume codec.
//!
//! A dense three-dimensional grid of colored voxels is turned into a
//! compact, upload-ready binary form by run-length encoding every
//! vertical column, and turned back again.  The wire layout is bit-exact:
//! a renderer on the far side decodes the same buffers with hardcoded
//! shift and mask constants, so every contract here pins the packed
//! bytes down to the last bit.

pub mod column;
pub mod grid;
pub mod range;
pub mod volume;
pub mod vox;
pub mod voxel;

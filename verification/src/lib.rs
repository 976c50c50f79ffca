//! A voxel world for a block-building demo, together with the arithmetic of
//! its rendering: face culling, mesh indices, row padding of read-back
//! frames, and the decisions of its input handling.

pub mod input;
pub mod mesh;
pub mod readback;
pub mod world;

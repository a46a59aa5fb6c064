//! Voxel world core: the sparse brick store, the block palette, the edit overlay and the packing of
//! resident bricks into GPU-ready buffers, together with the scene-file, height-ring and interface
//! rules of the game around it.


pub mod alias;
pub mod brickmap;
pub mod cornell;
pub mod edits;
mod fxmap;
pub mod gallery;
pub mod gpu;
pub mod gpu_voxelize;
pub mod incremental;
pub mod light_build;
pub mod math;
pub mod pack;
pub mod palette;
pub mod paletted;
pub mod patch;
pub mod physics;
pub mod pools;
pub mod sample;
pub mod scene;
pub mod sort;
pub mod soul_scene;
pub mod text;
pub mod ui;
pub mod upload;

//! Verified core of a voxel colony game.
//!
//! - `utils`: flat indexing of region tiles.
//! - `planet`: region tiles, ground level and ramp building.
//! - `voxels`: greedy meshing of voxel models.
//! - `lighting`: light slots and per-tile light bits.
//! - `heightmap`: squares of a region heightmap.
//! - `components`: game components and the saved component registry.
//! - `playgame`: per-frame game state and the pause keys.
//! - `main_loop`: decisions of the window's main loop.

pub mod utils;
pub mod voxels;
pub mod planet;
pub mod components;
pub mod playgame;
pub mod main_loop;
pub mod lighting;
pub mod heightmap;

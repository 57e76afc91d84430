//! Core logic of a voxel world: flag banks, blocks, chunks, the chunked
//! universe, sun beams, light propagation, terrain edits, chunk generation
//! passes, save formats and multiplayer bookkeeping.
use vstd::prelude::*;

pub mod flagbank;
pub mod ivec;
pub mod block;
pub mod chunk;
pub mod universe;
pub mod sun_beams;
pub mod lighting;
pub mod terrain;
pub mod editing;
pub mod generation;
pub mod saveload;
pub mod cubemap;
pub mod net;
pub mod settings;
pub mod vox;
pub mod grid;
pub mod grid_hierarchy;
pub mod voxel_shapes;
pub mod hotbar;

verus! {

/// Side of a cubic chunk, in blocks.
pub const CHUNK_SIDE: usize = 32;

/// Blocks in one horizontal layer of a chunk.
pub const CHUNK_AREA: usize = 1024;

/// Blocks in a chunk.
pub const CHUNK_VOLUME: usize = 32768;

} // verus!

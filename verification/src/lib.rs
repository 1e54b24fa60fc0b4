//! Core of a block-based voxel world: integer chunk coordinates, run-length
//! persisted chunk storage, deterministic seed-driven terrain generation,
//! visible-face mesh extraction, a chunk streaming state machine, and
//! axis-aligned collision resolution on a fixed-point grid.

pub mod block;
pub mod block_pos;
pub mod chunk;
pub mod chunk_data;
pub mod chunk_index;
pub mod chunk_pos;
pub mod level;
pub mod level_generator;
pub mod mesh_builder;
pub mod physics;

//! Sparse, hierarchical storage for a three-dimensional voxel world.
//!
//! The world is an unbounded horizontal plane of chunks, each a fixed
//! vertical stack of subchunks; every voxel carries a small set of
//! integer and boolean fields stored bit-packed, with absent levels
//! standing for the fields' default values.

use vstd::prelude::*;

pub mod block;
pub mod chunk;
pub mod codec;
pub mod coords;
pub mod error;
pub mod field;
pub mod section;
pub mod subchunk;
pub mod world;

pub use coords::BlockPosition;
pub use coords::ChunkPosition;
pub use coords::block_to_chunk_pos;
pub use coords::chunk_to_block_pos;
pub use coords::global_to_local_pos;
pub use coords::local_to_subchunk_pos;
pub use coords::subchunk_index;
pub use coords::chunk_offsets;
pub use coords::block_offsets;
pub use coords::lemma_coordinate_inverse;
pub use coords::spec_block_to_chunk;
pub use coords::spec_global_to_local;
pub use block::Block;
pub use block::block_definition;
pub use error::AccessError;
pub use error::BoundsError;
pub use error::ChunkAccessError;
pub use error::ChunkOverwriteError;
pub use error::ChunkStoreError;
pub use error::DecodeError;
pub use field::Field;
pub use field::FieldType;
pub use field::NUM_FIELDS;
pub use section::Section;
pub use section::SECTION_VOLUME;
pub use subchunk::Subchunk;
pub use subchunk::lemma_sub_all_default_absent;
pub use chunk::Chunk;
pub use chunk::lemma_all_default_absent;
pub use chunk::lemma_default_write_is_noop;
pub use codec::lemma_chunk_codec_round_trip;
pub use codec::spec_decode_chunk;
pub use codec::spec_encode_chunk;
pub use codec::encode_chunk;
pub use codec::decode_chunk;
pub use world::World;
pub use world::ChunkError;
pub use world::spec_chunk_key;
pub use world::spec_neighborhood;
pub use world::lemma_chunk_key_injective;

verus! {

/// Horizontal extent of a chunk along the x axis, in blocks.
pub const CHUNK_WIDTH: usize = 16;

/// Horizontal extent of a chunk along the y axis, in blocks.
pub const CHUNK_HEIGHT: usize = 16;

/// Vertical extent of one subchunk, in blocks.
pub const SUBCHUNK_DEPTH: usize = 16;

/// Number of subchunks stacked vertically in a chunk.
pub const NUM_SUBCHUNKS: usize = 16;

/// Full vertical extent of a chunk, in blocks.
pub const CHUNK_DEPTH: usize = SUBCHUNK_DEPTH * NUM_SUBCHUNKS;

/// Number of block positions in one chunk.
pub const CHUNK_VOLUME: usize = CHUNK_WIDTH * CHUNK_HEIGHT * CHUNK_DEPTH;

} // verus!

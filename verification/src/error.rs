//! The error taxonomy of the storage engine.
//!
//! Every operation returns one of these kinds; none of the engine's
//! operations panics on caller-supplied bad input.

use vstd::prelude::*;
use crate::coords::{BlockPosition, ChunkPosition};

verus! {

/// A local position lies outside a fixed volume.
#[derive(Clone, Copy, Debug, PartialEq, Eq, Structural)]
pub enum BoundsError {
    /// The given position is outside the volume that was addressed.
    OutOfBounds(BlockPosition),
}

/// A requested chunk coordinate has no resident chunk.
#[derive(Clone, Copy, Debug, PartialEq, Eq, Structural)]
pub enum ChunkAccessError {
    /// No chunk is loaded at the given position.
    ChunkUnloaded(ChunkPosition),
}

/// An attempt to create or load a chunk at an occupied coordinate.
#[derive(Clone, Copy, Debug, PartialEq, Eq, Structural)]
pub enum ChunkOverwriteError {
    /// A chunk is already loaded at the given position.
    ChunkAlreadyLoaded(ChunkPosition),
}

/// A persisted chunk byte stream was rejected.
#[derive(Clone, Copy, Debug, PartialEq, Eq, Structural)]
pub enum DecodeError {
    /// The stream ended before the encoding was complete.
    Truncated,
    /// The stream is no canonical encoding of a chunk.
    Malformed,
}

/// Union of the errors surfaced by per-global-position field access.
#[derive(Clone, Copy, Debug, PartialEq, Eq, Structural)]
pub enum AccessError {
    /// The owning chunk is not resident.
    ChunkAccess(ChunkAccessError),
    /// The position lies outside the chunk volume.
    Bounds(BoundsError),
}

/// Union of the errors surfaced by the persistence operations.
#[derive(Clone, Copy, Debug, PartialEq, Eq, Structural)]
pub enum ChunkStoreError {
    /// The chunk to store was not resident.
    Access(AccessError),
    /// A chunk was already resident at the target position.
    ChunkOverwrite(ChunkOverwriteError),
    /// The byte stream to load was rejected.
    Decode(DecodeError),
}

} // verus!

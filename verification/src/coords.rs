//! Conversions between global block coordinates, chunk coordinates and
//! chunk-local coordinates, and enumeration of neighbour offsets.
//!
//! Horizontal components are divided by the chunk footprint with Euclidean
//! (floor) semantics, so chunks tile correctly across the origin for
//! negative coordinates.

use vstd::prelude::*;
use vstd::arithmetic::div_mod::{
    lemma_div_is_ordered, lemma_div_nonincreasing, lemma_div_of0, lemma_div_pos_is_pos,
    lemma_fundamental_div_mod, lemma_mod_division_less_than_divisor,
};
use crate::{CHUNK_DEPTH, CHUNK_HEIGHT, CHUNK_WIDTH, SUBCHUNK_DEPTH};

verus! {

/// Three dimensional integer position of a block.
#[derive(Clone, Copy, Debug, PartialEq, Eq, Structural, Hash)]
pub struct BlockPosition {
    pub x: i32,
    pub y: i32,
    pub z: i32,
}

/// Two dimensional integer position of a chunk.
#[derive(Clone, Copy, Debug, PartialEq, Eq, Structural, Hash)]
pub struct ChunkPosition {
    pub x: i32,
    pub y: i32,
}

impl BlockPosition {
    /// Builds a block position from its three components.
    pub fn new(x: i32, y: i32, z: i32) -> (r: BlockPosition)
        ensures
            r == (BlockPosition { x, y, z }),
    {
        BlockPosition { x, y, z }
    }
}

impl ChunkPosition {
    /// Builds a chunk position from its two components.
    pub fn new(x: i32, y: i32) -> (r: ChunkPosition)
        ensures
            r == (ChunkPosition { x, y }),
    {
        ChunkPosition { x, y }
    }
}

/// For a positive divisor, the Euclidean quotient lies between the
/// dividend and zero.
proof fn lemma_euclid_div_range(x: int, d: int)
    requires
        1 <= d,
    ensures
        0 <= x ==> 0 <= x / d <= x,
        x < 0 ==> x <= x / d <= 0,
{
    lemma_fundamental_div_mod(x, d);
    lemma_mod_division_less_than_divisor(x, d);
    let q = x / d;
    if 0 <= x {
        lemma_div_pos_is_pos(x, d);
        lemma_div_nonincreasing(x, d);
    } else {
        lemma_div_is_ordered(x, 0, d);
        lemma_div_of0(d);
        if q <= -1 {
            assert((d - 1) * q <= -(d - 1)) by (nonlinear_arith)
                requires
                    q <= -1,
                    1 <= d,
            ;
            assert(d * q == q + (d - 1) * q) by (nonlinear_arith);
        }
    }
}


/// The chunk position a global block position falls into.
pub open spec fn spec_block_to_chunk(pos: BlockPosition) -> ChunkPosition {
    ChunkPosition {
        x: (pos.x as int / CHUNK_WIDTH as int) as i32,
        y: (pos.y as int / CHUNK_HEIGHT as int) as i32,
    }
}

/// The chunk-local remainder of a global block position.
pub open spec fn spec_global_to_local(pos: BlockPosition) -> BlockPosition {
    BlockPosition {
        x: (pos.x as int % CHUNK_WIDTH as int) as i32,
        y: (pos.y as int % CHUNK_HEIGHT as int) as i32,
        z: pos.z,
    }
}

/// Gets the chunk position a block position falls into.
///
/// The horizontal components are floor-divided by the chunk footprint.
pub fn block_to_chunk_pos(pos: BlockPosition) -> (r: ChunkPosition)
    ensures
        r.x == pos.x as int / CHUNK_WIDTH as int,
        r.y == pos.y as int / CHUNK_HEIGHT as int,
        r == spec_block_to_chunk(pos),
{
    proof {
        lemma_euclid_div_range(pos.x as int, CHUNK_WIDTH as int);
        lemma_euclid_div_range(pos.y as int, CHUNK_HEIGHT as int);
    }
    let x = pos.x.checked_div_euclid(CHUNK_WIDTH as i32).unwrap();
    let y = pos.y.checked_div_euclid(CHUNK_HEIGHT as i32).unwrap();
    ChunkPosition { x, y }
}

/// Finds the chunk-local remainder of a global position.
///
/// The horizontal components are reduced to `[0, CHUNK_WIDTH)` and
/// `[0, CHUNK_HEIGHT)`; the vertical component passes through unchanged.
pub fn global_to_local_pos(pos: BlockPosition) -> (r: BlockPosition)
    ensures
        r.x == pos.x as int % CHUNK_WIDTH as int,
        r.y == pos.y as int % CHUNK_HEIGHT as int,
        r.z == pos.z,
        0 <= r.x < CHUNK_WIDTH,
        0 <= r.y < CHUNK_HEIGHT,
        r == spec_global_to_local(pos),
{
    proof {
        lemma_mod_division_less_than_divisor(pos.x as int, CHUNK_WIDTH as int);
        lemma_mod_division_less_than_divisor(pos.y as int, CHUNK_HEIGHT as int);
    }
    let x = pos.x.checked_rem_euclid(CHUNK_WIDTH as i32).unwrap();
    let y = pos.y.checked_rem_euclid(CHUNK_HEIGHT as i32).unwrap();
    BlockPosition { x, y, z: pos.z }
}

/// Converts a chunk position to the block position of its zero corner.
pub fn chunk_to_block_pos(pos: ChunkPosition) -> (r: BlockPosition)
    requires
        i32::MIN <= pos.x as int * CHUNK_WIDTH as int <= i32::MAX,
        i32::MIN <= pos.y as int * CHUNK_HEIGHT as int <= i32::MAX,
    ensures
        r.x == pos.x as int * CHUNK_WIDTH as int,
        r.y == pos.y as int * CHUNK_HEIGHT as int,
        r.z == 0,
{
    BlockPosition { x: pos.x * CHUNK_WIDTH as i32, y: pos.y * CHUNK_HEIGHT as i32, z: 0 }
}

/// Reduces a chunk-local position to a subchunk-local one: the vertical
/// component is taken modulo the subchunk depth.
pub fn local_to_subchunk_pos(pos: BlockPosition) -> (r: BlockPosition)
    ensures
        r.x == pos.x,
        r.y == pos.y,
        r.z == pos.z as int % SUBCHUNK_DEPTH as int,
        0 <= r.z < SUBCHUNK_DEPTH,
{
    proof {
        lemma_mod_division_less_than_divisor(pos.z as int, SUBCHUNK_DEPTH as int);
    }
    let z = pos.z.checked_rem_euclid(SUBCHUNK_DEPTH as i32).unwrap();
    BlockPosition { x: pos.x, y: pos.y, z }
}

/// Finds the index of the subchunk a chunk-local vertical coordinate
/// falls into, or `None` when the coordinate lies outside the chunk.
pub fn subchunk_index(pos_z: i32) -> (r: Option<usize>)
    ensures
        0 <= pos_z < CHUNK_DEPTH ==> r == Some((pos_z as int / SUBCHUNK_DEPTH as int) as usize),
        !(0 <= pos_z < CHUNK_DEPTH) ==> r is None,
        r is Some ==> 0 <= r.unwrap() < crate::NUM_SUBCHUNKS,
{
    if pos_z < 0 || pos_z >= CHUNK_DEPTH as i32 {
        None
    } else {
        Some((pos_z as usize) / SUBCHUNK_DEPTH)
    }
}

/// The chunk positions adjacent to `pos` along the two horizontal axes,
/// in the order `-x`, `+x`, `-y`, `+y`.
pub open spec fn spec_chunk_offsets(pos: ChunkPosition) -> Seq<ChunkPosition> {
    seq![
        ChunkPosition { x: (pos.x - 1) as i32, y: pos.y },
        ChunkPosition { x: (pos.x + 1) as i32, y: pos.y },
        ChunkPosition { x: pos.x, y: (pos.y - 1) as i32 },
        ChunkPosition { x: pos.x, y: (pos.y + 1) as i32 },
    ]
}

/// Returns the four horizontally adjacent chunk positions.
pub fn chunk_offsets(pos: ChunkPosition) -> (r: Vec<ChunkPosition>)
    requires
        i32::MIN < pos.x < i32::MAX,
        i32::MIN < pos.y < i32::MAX,
    ensures
        r@ == spec_chunk_offsets(pos),
{
    let mut r: Vec<ChunkPosition> = Vec::new();
    r.push(ChunkPosition { x: pos.x - 1, y: pos.y });
    r.push(ChunkPosition { x: pos.x + 1, y: pos.y });
    r.push(ChunkPosition { x: pos.x, y: pos.y - 1 });
    r.push(ChunkPosition { x: pos.x, y: pos.y + 1 });
    proof {
        assert(r@ =~= spec_chunk_offsets(pos));
    }
    r
}

/// The block positions adjacent to `pos` along the three axes, in the
/// order `+x`, `+y`, `+z`, `-x`, `-y`, `-z`, with vertical neighbours
/// kept only when they lie inside `[0, CHUNK_DEPTH)`.
pub open spec fn spec_block_offsets(pos: BlockPosition) -> Seq<BlockPosition> {
    seq![
        BlockPosition { x: (pos.x + 1) as i32, y: pos.y, z: pos.z },
        BlockPosition { x: pos.x, y: (pos.y + 1) as i32, z: pos.z },
    ] + (if 0 <= pos.z + 1 < CHUNK_DEPTH {
        seq![BlockPosition { x: pos.x, y: pos.y, z: (pos.z + 1) as i32 }]
    } else {
        Seq::empty()
    }) + seq![
        BlockPosition { x: (pos.x - 1) as i32, y: pos.y, z: pos.z },
        BlockPosition { x: pos.x, y: (pos.y - 1) as i32, z: pos.z },
    ] + (if 0 <= pos.z - 1 < CHUNK_DEPTH {
        seq![BlockPosition { x: pos.x, y: pos.y, z: (pos.z - 1) as i32 }]
    } else {
        Seq::empty()
    })
}

/// Returns the adjacent block positions, with vertical neighbours that
/// fall outside the chunk depth filtered out.
pub fn block_offsets(pos: BlockPosition) -> (r: Vec<BlockPosition>)
    requires
        i32::MIN < pos.x < i32::MAX,
        i32::MIN < pos.y < i32::MAX,
        i32::MIN < pos.z < i32::MAX,
    ensures
        r@ == spec_block_offsets(pos),
{
    let mut r: Vec<BlockPosition> = Vec::new();
    r.push(BlockPosition { x: pos.x + 1, y: pos.y, z: pos.z });
    r.push(BlockPosition { x: pos.x, y: pos.y + 1, z: pos.z });
    if pos.z + 1 >= 0 && pos.z + 1 < CHUNK_DEPTH as i32 {
        r.push(BlockPosition { x: pos.x, y: pos.y, z: pos.z + 1 });
    }
    r.push(BlockPosition { x: pos.x - 1, y: pos.y, z: pos.z });
    r.push(BlockPosition { x: pos.x, y: pos.y - 1, z: pos.z });
    if pos.z - 1 >= 0 && pos.z - 1 < CHUNK_DEPTH as i32 {
        r.push(BlockPosition { x: pos.x, y: pos.y, z: pos.z - 1 });
    }
    proof {
        assert(r@ =~= spec_block_offsets(pos));
    }
    r
}

/// Coordinate inverse law: scaling the chunk coordinate back to its block
/// origin and adding the chunk-local remainder reconstructs the global
/// horizontal components, and the remainders always lie inside the chunk
/// footprint, also for negative inputs.
pub proof fn lemma_coordinate_inverse(p: BlockPosition)
    ensures
        CHUNK_WIDTH as int * (p.x as int / CHUNK_WIDTH as int) + p.x as int % CHUNK_WIDTH as int
            == p.x as int,
        CHUNK_HEIGHT as int * (p.y as int / CHUNK_HEIGHT as int) + p.y as int % CHUNK_HEIGHT as int
            == p.y as int,
        0 <= (p.x as int % CHUNK_WIDTH as int) < CHUNK_WIDTH,
        0 <= (p.y as int % CHUNK_HEIGHT as int) < CHUNK_HEIGHT,
{
    lemma_fundamental_div_mod(p.x as int, CHUNK_WIDTH as int);
    lemma_fundamental_div_mod(p.y as int, CHUNK_HEIGHT as int);
    lemma_mod_division_less_than_divisor(p.x as int, CHUNK_WIDTH as int);
    lemma_mod_division_less_than_divisor(p.y as int, CHUNK_HEIGHT as int);
}

} // verus!

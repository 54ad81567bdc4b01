//! The world: an unbounded mapping from chunk coordinate to chunk, a
//! dirty set of chunk coordinates, and the persistence entry points.
//!
//! Every field access at a global position resolves to exactly one
//! chunk and chunk-local position. Reading a position whose chunk is
//! absent is an error — absence of a chunk is distinct from absence of
//! a subchunk or section, which transparently reads as default.

use std::collections::HashMap;
use vstd::prelude::*;
use crate::chunk::{
    chunk_all_absent, chunk_in_bounds, chunk_item_at, chunk_view_with, Chunk,
};
use crate::codec::{decode_chunk, encode_chunk, spec_decode_chunk, spec_encode_chunk};
use vstd::arithmetic::div_mod::lemma_fundamental_div_mod_converse;
use crate::coords::{
    block_offsets, block_to_chunk_pos, chunk_offsets, chunk_to_block_pos, global_to_local_pos,
    spec_block_offsets, spec_block_to_chunk, spec_chunk_offsets, spec_global_to_local,
    BlockPosition, ChunkPosition,
};
use crate::error::{
    AccessError, BoundsError, ChunkAccessError, ChunkOverwriteError, ChunkStoreError,
};
use crate::field::{lemma_width_facts, spec_bits_at, Field, FieldType};
use crate::{CHUNK_DEPTH, CHUNK_HEIGHT, CHUNK_VOLUME, CHUNK_WIDTH};

verus! {

broadcast use vstd::std_specs::hash::group_hash_axioms;

/// The error kinds of chunk residency management.
#[derive(Clone, Copy, Debug, PartialEq, Eq, Structural)]
pub enum ChunkError {
    /// The chunk at the requested position is currently unloaded.
    ChunkUnloaded,
    /// A chunk already exists at the requested position.
    ChunkAlreadyLoaded,
}

/// The map key a chunk position is filed under: its two components
/// packed into one word.
pub open spec fn spec_chunk_key(p: ChunkPosition) -> u64 {
    (((p.x as u32) as u64) << 32u64) | ((p.y as u32) as u64)
}

/// Packs a chunk position into its map key.
fn chunk_key(p: ChunkPosition) -> (r: u64)
    ensures
        r == spec_chunk_key(p),
{
    (((p.x as u32) as u64) << 32u64) | ((p.y as u32) as u64)
}

/// Distinct chunk positions are filed under distinct keys.
pub proof fn lemma_chunk_key_injective(a: ChunkPosition, b: ChunkPosition)
    requires
        spec_chunk_key(a) == spec_chunk_key(b),
    ensures
        a == b,
{
    let ax = a.x;
    let ay = a.y;
    let bx = b.x;
    let by = b.y;
    assert(ax == bx && ay == by) by (bit_vector)
        requires
            (((ax as u32) as u64) << 32u64) | ((ay as u32) as u64) == (((bx as u32) as u64)
                << 32u64) | ((by as u32) as u64),
    ;
}

/// The chunk position and its four horizontal neighbours: the
/// coordinates a successful write marks dirty.
pub open spec fn spec_neighborhood(cp: ChunkPosition) -> Set<ChunkPosition> {
    set![
        cp,
        ChunkPosition { x: (cp.x - 1) as i32, y: cp.y },
        ChunkPosition { x: (cp.x + 1) as i32, y: cp.y },
        ChunkPosition { x: cp.x, y: (cp.y - 1) as i32 },
        ChunkPosition { x: cp.x, y: (cp.y + 1) as i32 },
    ]
}

/// Stores all chunks and marks dirty chunks. Allows access and
/// modification to them.
pub struct World {
    chunks: HashMap<u64, Chunk>,
    dirty: Vec<ChunkPosition>,
}

impl World {
    /// The resident chunks, filed by packed chunk-position key.
    pub closed spec fn spec_chunks(self) -> Map<u64, Chunk> {
        self.chunks@
    }

    /// The coordinates currently marked dirty, in marking order.
    pub closed spec fn spec_dirty(self) -> Seq<ChunkPosition> {
        self.dirty@
    }

    /// Whether a chunk is resident at `p`.
    pub open spec fn spec_loaded(self, p: ChunkPosition) -> bool {
        self.spec_chunks().contains_key(spec_chunk_key(p))
    }

    /// The resident chunk at `p`.
    pub open spec fn spec_chunk_at(self, p: ChunkPosition) -> Chunk {
        self.spec_chunks()[spec_chunk_key(p)]
    }

    /// Internal invariant: every resident chunk satisfies its own
    /// invariant, and no coordinate is marked dirty twice.
    pub closed spec fn inv(self) -> bool {
        &&& forall|k: u64|
            self.chunks@.contains_key(k) ==> (#[trigger] self.chunks@[k]).inv()
        &&& self.dirty@.no_duplicates()
    }

    /// Creates a world with no resident chunks and nothing dirty.
    pub fn new() -> (r: World)
        ensures
            r.inv(),
            r.spec_chunks() == Map::<u64, Chunk>::empty(),
            r.spec_dirty() == Seq::<ChunkPosition>::empty(),
    {
        World { chunks: HashMap::new(), dirty: Vec::new() }
    }

    /// Returns true when a chunk is resident at the passed position.
    pub fn is_chunk_at_pos(&self, pos: ChunkPosition) -> (r: bool)
        ensures
            r == self.spec_loaded(pos),
    {
        self.chunks.contains_key(&chunk_key(pos))
    }

    /// Borrows the resident chunk at `pos`, or reports that the chunk
    /// is unloaded.
    pub fn chunk_at(&self, pos: ChunkPosition) -> (r: Result<&Chunk, ChunkAccessError>)
        requires
            self.inv(),
        ensures
            self.spec_loaded(pos) ==> (r matches Ok(c) && *c == self.spec_chunk_at(pos)
                && c.inv()),
            !self.spec_loaded(pos) ==> r == Err::<&Chunk, ChunkAccessError>(
                ChunkAccessError::ChunkUnloaded(pos),
            ),
    {
        match self.chunks.get(&chunk_key(pos)) {
            Some(c) => Ok(c),
            None => Err(ChunkAccessError::ChunkUnloaded(pos)),
        }
    }

    /// Inserts a freshly default-constructed chunk at `pos`; fails
    /// without mutation if one already exists there.
    pub fn add_empty_chunk(&mut self, pos: ChunkPosition) -> (r: Result<(), ChunkOverwriteError>)
        requires
            old(self).inv(),
        ensures
            final(self).inv(),
            old(self).spec_loaded(pos) ==> r == Err::<(), ChunkOverwriteError>(
                ChunkOverwriteError::ChunkAlreadyLoaded(pos),
            ) && final(self).spec_chunks() == old(self).spec_chunks() && final(self).spec_dirty()
                == old(self).spec_dirty(),
            !old(self).spec_loaded(pos) ==> r == Ok::<(), ChunkOverwriteError>(()) && final(self).spec_chunks() == old(self).spec_chunks().insert(
                spec_chunk_key(pos),
                final(self).spec_chunk_at(pos),
            ) && chunk_all_absent(final(self).spec_chunk_at(pos)@) && final(self).spec_chunk_at(
                pos,
            ).inv() && final(self).spec_dirty() == old(self).spec_dirty(),
    {
        let key = chunk_key(pos);
        if self.chunks.contains_key(&key) {
            return Err(ChunkOverwriteError::ChunkAlreadyLoaded(pos));
        }
        let chunk = Chunk::new();
        self.chunks.insert(key, chunk);
        Ok(())
    }

    /// Inserts a freshly default-constructed chunk at `pos`; fails
    /// without mutation if one already exists there.
    pub fn add_default_chunk(&mut self, pos: ChunkPosition) -> (r: Result<(), ChunkError>)
        requires
            old(self).inv(),
        ensures
            final(self).inv(),
            old(self).spec_loaded(pos) ==> r == Err::<(), ChunkError>(
                ChunkError::ChunkAlreadyLoaded,
            ) && final(self).spec_chunks() == old(self).spec_chunks() && final(self).spec_dirty()
                == old(self).spec_dirty(),
            !old(self).spec_loaded(pos) ==> r == Ok::<(), ChunkError>(()) && final(self).spec_chunks() == old(self).spec_chunks().insert(
                spec_chunk_key(pos),
                final(self).spec_chunk_at(pos),
            ) && chunk_all_absent(final(self).spec_chunk_at(pos)@) && final(self).spec_chunk_at(
                pos,
            ).inv() && final(self).spec_dirty() == old(self).spec_dirty(),
    {
        match self.add_empty_chunk(pos) {
            Ok(()) => Ok(()),
            Err(ChunkOverwriteError::ChunkAlreadyLoaded(_)) => Err(ChunkError::ChunkAlreadyLoaded),
        }
    }


    /// Mutably borrows the resident chunk at `pos`, or reports that the
    /// chunk is unloaded. The world invariant is re-established provided
    /// the borrower leaves the chunk satisfying its own invariant, as
    /// every chunk method does.
    pub fn chunk_at_mut(&mut self, pos: ChunkPosition) -> (r: Result<&mut Chunk, ChunkAccessError>)
        requires
            old(self).inv(),
        ensures
            !old(self).spec_loaded(pos) ==> (r matches Err(e) && e
                == ChunkAccessError::ChunkUnloaded(pos)) && final(self).spec_chunks() == old(self).spec_chunks() && final(self).spec_dirty() == old(self).spec_dirty() && final(self).inv(),
            old(self).spec_loaded(pos) ==> (r matches Ok(c) && *c == old(self).spec_chunk_at(pos)
                && final(self).spec_chunks() == old(self).spec_chunks().insert(
                spec_chunk_key(pos),
                *final(c),
            ) && final(self).spec_dirty() == old(self).spec_dirty() && ((*final(c)).inv()
                ==> final(self).inv())),
    {
        let key = chunk_key(pos);
        if !self.chunks.contains_key(&key) {
            return Err(ChunkAccessError::ChunkUnloaded(pos));
        }
        match self.chunks.entry(key) {
            std::collections::hash_map::Entry::Occupied(occ) => {
                let c = occ.into_mut();
                Ok(c)
            },
            std::collections::hash_map::Entry::Vacant(_) => {
                proof {
                    assert(false);
                }
                Err(ChunkAccessError::ChunkUnloaded(pos))
            },
        }
    }

    /// Whether `p` is marked dirty.
    fn dirty_contains(&self, p: ChunkPosition) -> (r: bool)
        ensures
            r == self.spec_dirty().contains(p),
    {
        let mut i: usize = 0;
        while i < self.dirty.len()
            invariant
                i <= self.dirty@.len(),
                forall|j: int| 0 <= j < i ==> self.dirty@[j] != p,
            decreases self.dirty@.len() - i,
        {
            if self.dirty[i] == p {
                return true;
            }
            i = i + 1;
        }
        false
    }

    /// Marks one coordinate dirty; a coordinate already marked is not
    /// marked twice.
    fn mark_dirty(&mut self, p: ChunkPosition)
        requires
            old(self).inv(),
        ensures
            final(self).inv(),
            final(self).spec_chunks() == old(self).spec_chunks(),
            final(self).spec_dirty().to_set() == old(self).spec_dirty().to_set().insert(p),
    {
        let ghost s0 = self.dirty@;
        if !self.dirty_contains(p) {
            self.dirty.push(p);
            proof {
                let s1 = self.dirty@;
                assert(s1[s0.len() as int] == p);
                assert(s1.contains(p));
                assert forall|x: ChunkPosition| s1.contains(x) implies s0.contains(x) || x
                    == p by {
                    let i = choose|i: int| 0 <= i < s1.len() && s1[i] == x;
                    if i < s0.len() {
                        assert(s0[i] == x);
                    }
                }
                assert forall|x: ChunkPosition| s0.contains(x) implies s1.contains(x) by {
                    let i = choose|i: int| 0 <= i < s0.len() && s0[i] == x;
                    assert(s1[i] == x);
                }
                assert(s1.to_set() =~= s0.to_set().insert(p));
                assert forall|i: int, j: int| 0 <= i < j < s1.len() implies s1[i] != s1[j] by {
                    if j == s0.len() {
                        assert(s0[i] == s1[i]);
                        assert(!s0.contains(p));
                    }
                }
            }
        } else {
            proof {
                assert(s0.contains(p));
                assert(s0.to_set() =~= s0.to_set().insert(p));
            }
        }
    }

    /// Marks a chunk and its four horizontal neighbours dirty.
    fn mark_neighborhood(&mut self, cp: ChunkPosition)
        requires
            old(self).inv(),
            i32::MIN < cp.x < i32::MAX,
            i32::MIN < cp.y < i32::MAX,
        ensures
            final(self).inv(),
            final(self).spec_chunks() == old(self).spec_chunks(),
            final(self).spec_dirty().to_set() == old(self).spec_dirty().to_set().union(
                spec_neighborhood(cp),
            ),
    {
        let ghost d0 = self.dirty@.to_set();
        self.mark_dirty(cp);
        self.mark_dirty(ChunkPosition { x: cp.x - 1, y: cp.y });
        self.mark_dirty(ChunkPosition { x: cp.x + 1, y: cp.y });
        self.mark_dirty(ChunkPosition { x: cp.x, y: cp.y - 1 });
        self.mark_dirty(ChunkPosition { x: cp.x, y: cp.y + 1 });
        proof {
            assert(self.dirty@.to_set() =~= d0.union(spec_neighborhood(cp)));
        }
    }

    /// Atomically empties the dirty set, returning its former contents
    /// filtered to the coordinates still loaded, each exactly once.
    /// Coordinates unloaded since being marked are silently dropped.
    pub fn consume_dirty(&mut self) -> (r: Vec<ChunkPosition>)
        requires
            old(self).inv(),
        ensures
            final(self).inv(),
            final(self).spec_chunks() == old(self).spec_chunks(),
            final(self).spec_dirty() == Seq::<ChunkPosition>::empty(),
            r@.no_duplicates(),
            forall|p: ChunkPosition|
                #[trigger] r@.contains(p) <==> old(self).spec_dirty().contains(p) && old(self).spec_loaded(p),
    {
        let ghost d0 = self.dirty@;
        let mut r: Vec<ChunkPosition> = Vec::new();
        let mut i: usize = 0;
        while i < self.dirty.len()
            invariant
                self.inv(),
                self.dirty@ == d0,
                i <= d0.len(),
                r@.no_duplicates(),
                forall|p: ChunkPosition|
                    #[trigger] r@.contains(p) <==> exists|j: int|
                        0 <= j < i && d0[j] == p && self.spec_loaded(#[trigger] d0[j]),
            decreases d0.len() - i,
        {
            let p = self.dirty[i];
            if self.chunks.contains_key(&chunk_key(p)) {
                let ghost r0 = r@;
                proof {
                    if r0.contains(p) {
                        let j = choose|j: int|
                            0 <= j < i && d0[j] == p && self.spec_loaded(d0[j]);
                        assert(d0[j] == d0[i as int]);
                        assert(false);
                    }
                }
                r.push(p);
                proof {
                    assert(r@[r0.len() as int] == p);
                    assert forall|q: ChunkPosition| #[trigger] r@.contains(q) implies exists|
                        j: int,
                    |
                        0 <= j < i + 1 && d0[j] == q && self.spec_loaded(#[trigger] d0[j]) by {
                        let k = choose|k: int| 0 <= k < r@.len() && r@[k] == q;
                        if k < r0.len() {
                            assert(r0[k] == q);
                            assert(r0.contains(q));
                        } else {
                            assert(q == p);
                            assert(d0[i as int] == q && self.spec_loaded(d0[i as int]));
                        }
                    }
                    assert forall|q: ChunkPosition|
                        (exists|j: int|
                            0 <= j < i + 1 && d0[j] == q && self.spec_loaded(
                                #[trigger] d0[j],
                            )) implies #[trigger] r@.contains(q) by {
                        let j = choose|j: int|
                            0 <= j < i + 1 && d0[j] == q && self.spec_loaded(d0[j]);
                        if j < i {
                            assert(r0.contains(q));
                            let k = choose|k: int| 0 <= k < r0.len() && r0[k] == q;
                            assert(r@[k] == q);
                        } else {
                            assert(r@[r0.len() as int] == q);
                        }
                    }
                    assert forall|a: int, b: int| 0 <= a < b < r@.len() implies r@[a] != r@[b] by {
                        if b == r0.len() {
                            assert(r0[a] == r@[a]);
                            assert(!r0.contains(p));
                        }
                    }
                }
            } else {
                proof {
                    assert forall|q: ChunkPosition| #[trigger] r@.contains(q) implies exists|
                        j: int,
                    |
                        0 <= j < i + 1 && d0[j] == q && self.spec_loaded(#[trigger] d0[j]) by {
                        let j = choose|j: int|
                            0 <= j < i && d0[j] == q && self.spec_loaded(d0[j]);
                        assert(0 <= j < i + 1 && d0[j] == q && self.spec_loaded(d0[j]));
                    }
                    assert forall|q: ChunkPosition|
                        (exists|j: int|
                            0 <= j < i + 1 && d0[j] == q && self.spec_loaded(
                                #[trigger] d0[j],
                            )) implies #[trigger] r@.contains(q) by {
                        let j = choose|j: int|
                            0 <= j < i + 1 && d0[j] == q && self.spec_loaded(d0[j]);
                        assert(j != i);
                    }
                }
            }
            i = i + 1;
        }
        self.dirty = Vec::new();
        proof {
            assert forall|p: ChunkPosition| #[trigger] r@.contains(p) implies d0.contains(p)
                && old(self).spec_loaded(p) by {
                let j = choose|j: int| 0 <= j < d0.len() && d0[j] == p && self.spec_loaded(d0[j]);
            }
            assert forall|p: ChunkPosition|
                d0.contains(p) && old(self).spec_loaded(p) implies #[trigger] r@.contains(p) by {
                let j = choose|j: int| 0 <= j < d0.len() && d0[j] == p;
                assert(0 <= j < d0.len() && d0[j] == p && old(self).spec_loaded(d0[j]));
            }
        }
        r
    }

    /// Reads the stored representation of one field at a global
    /// position. The position resolves to exactly one chunk and local
    /// position; a missing chunk is an error, while a missing subchunk
    /// or section transparently reads as the default value.
    pub fn item(&self, f: Field, pos: BlockPosition) -> (r: Result<u64, AccessError>)
        requires
            self.inv(),
        ensures
            !self.spec_loaded(spec_block_to_chunk(pos)) ==> r == Err::<u64, AccessError>(
                AccessError::ChunkAccess(
                    ChunkAccessError::ChunkUnloaded(spec_block_to_chunk(pos)),
                ),
            ),
            self.spec_loaded(spec_block_to_chunk(pos)) && !chunk_in_bounds(
                spec_global_to_local(pos),
            ) ==> r == Err::<u64, AccessError>(
                AccessError::Bounds(BoundsError::OutOfBounds(spec_global_to_local(pos))),
            ),
            self.spec_loaded(spec_block_to_chunk(pos)) && chunk_in_bounds(
                spec_global_to_local(pos),
            ) ==> r == Ok::<u64, AccessError>(
                chunk_item_at(
                    self.spec_chunk_at(spec_block_to_chunk(pos))@,
                    f.spec_index(),
                    spec_global_to_local(pos),
                ),
            ),
    {
        let cp = block_to_chunk_pos(pos);
        let lp = global_to_local_pos(pos);
        match self.chunks.get(&chunk_key(cp)) {
            None => Err(AccessError::ChunkAccess(ChunkAccessError::ChunkUnloaded(cp))),
            Some(c) => match c.item(f, lp) {
                Ok(v) => Ok(v),
                Err(e) => Err(AccessError::Bounds(e)),
            },
        }
    }

    /// Writes the stored representation of one field at a global
    /// position, and on success marks the owning chunk and its four
    /// horizontal neighbours dirty. A missing chunk or an out-of-range
    /// vertical coordinate is an error and changes nothing.
    pub fn set_item(&mut self, f: Field, pos: BlockPosition, value: u64) -> (r: Result<
        (),
        AccessError,
    >)
        requires
            old(self).inv(),
            value < (1u64 << spec_bits_at(f.spec_index())),
        ensures
            final(self).inv(),
            !old(self).spec_loaded(spec_block_to_chunk(pos)) ==> r == Err::<(), AccessError>(
                AccessError::ChunkAccess(
                    ChunkAccessError::ChunkUnloaded(spec_block_to_chunk(pos)),
                ),
            ) && final(self).spec_chunks() == old(self).spec_chunks() && final(self).spec_dirty()
                == old(self).spec_dirty(),
            old(self).spec_loaded(spec_block_to_chunk(pos)) && !chunk_in_bounds(
                spec_global_to_local(pos),
            ) ==> r == Err::<(), AccessError>(
                AccessError::Bounds(BoundsError::OutOfBounds(spec_global_to_local(pos))),
            ) && final(self).spec_chunks() == old(self).spec_chunks() && final(self).spec_dirty()
                == old(self).spec_dirty(),
            old(self).spec_loaded(spec_block_to_chunk(pos)) && chunk_in_bounds(
                spec_global_to_local(pos),
            ) ==> r == Ok::<(), AccessError>(()) && final(self).spec_chunks() == old(self).spec_chunks().insert(
                spec_chunk_key(spec_block_to_chunk(pos)),
                final(self).spec_chunk_at(spec_block_to_chunk(pos)),
            ) && final(self).spec_chunk_at(spec_block_to_chunk(pos))@ == chunk_view_with(
                old(self).spec_chunk_at(spec_block_to_chunk(pos))@,
                f.spec_index(),
                spec_global_to_local(pos),
                value,
            ) && final(self).spec_dirty().to_set() == old(self).spec_dirty().to_set().union(
                spec_neighborhood(spec_block_to_chunk(pos)),
            ),
    {
        let cp = block_to_chunk_pos(pos);
        let lp = global_to_local_pos(pos);
        let key = chunk_key(cp);
        if !self.chunks.contains_key(&key) {
            return Err(AccessError::ChunkAccess(ChunkAccessError::ChunkUnloaded(cp)));
        }
        if lp.z < 0 || lp.z >= crate::CHUNK_DEPTH as i32 {
            return Err(AccessError::Bounds(BoundsError::OutOfBounds(lp)));
        }
        proof {
            vstd::arithmetic::div_mod::lemma_div_is_ordered(
                i32::MIN as int,
                pos.x as int,
                crate::CHUNK_WIDTH as int,
            );
            vstd::arithmetic::div_mod::lemma_div_is_ordered(
                pos.x as int,
                i32::MAX as int,
                crate::CHUNK_WIDTH as int,
            );
            vstd::arithmetic::div_mod::lemma_div_is_ordered(
                i32::MIN as int,
                pos.y as int,
                crate::CHUNK_HEIGHT as int,
            );
            vstd::arithmetic::div_mod::lemma_div_is_ordered(
                pos.y as int,
                i32::MAX as int,
                crate::CHUNK_HEIGHT as int,
            );
        }
        let c_opt = self.chunks.remove(&key);
        match c_opt {
            None => {
                proof {
                    assert(false);
                }
                Err(AccessError::ChunkAccess(ChunkAccessError::ChunkUnloaded(cp)))
            },
            Some(mut c) => {
                let ghost c0 = c;
                let sr = c.set_item(f, lp, value);
                proof {
                    assert(sr is Ok);
                }
                self.chunks.insert(key, c);
                proof {
                    assert(old(self).spec_chunks()[key] == c0);
                    assert(self.spec_chunks() =~= old(self).spec_chunks().insert(key, c));
                }
                self.mark_neighborhood(cp);
                Ok(())
            },
        }
    }

    /// Reads the block-type tag at a global position.
    pub fn block(&self, pos: BlockPosition) -> (r: Result<u8, AccessError>)
        requires
            self.inv(),
        ensures
            !self.spec_loaded(spec_block_to_chunk(pos)) ==> r == Err::<u8, AccessError>(
                AccessError::ChunkAccess(
                    ChunkAccessError::ChunkUnloaded(spec_block_to_chunk(pos)),
                ),
            ),
            self.spec_loaded(spec_block_to_chunk(pos)) && !chunk_in_bounds(
                spec_global_to_local(pos),
            ) ==> r == Err::<u8, AccessError>(
                AccessError::Bounds(BoundsError::OutOfBounds(spec_global_to_local(pos))),
            ),
            self.spec_loaded(spec_block_to_chunk(pos)) && chunk_in_bounds(
                spec_global_to_local(pos),
            ) ==> (r is Ok && r.unwrap() == chunk_item_at(
                self.spec_chunk_at(spec_block_to_chunk(pos))@,
                Field::BlockType.spec_index(),
                spec_global_to_local(pos),
            )),
    {
        proof {
            self.lemma_field_fits(Field::BlockType, pos);
        }
        match self.item(Field::BlockType, pos) {
            Ok(v) => Ok(u8::from_u64(v)),
            Err(e) => Err(e),
        }
    }

    /// Writes the block-type tag at a global position, marking the
    /// owning chunk and its four horizontal neighbours dirty on success.
    pub fn set_block(&mut self, pos: BlockPosition, value: u8) -> (r: Result<(), AccessError>)
        requires
            old(self).inv(),
        ensures
            final(self).inv(),
            final(self).set_field_post(*old(self), pos, Field::BlockType, value as u64, r),
    {
        proof {
            lemma_width_facts();
        }
        self.set_item(Field::BlockType, pos, value.to_u64())
    }

    /// Reads the sky-light level at a global position.
    pub fn sky_light(&self, pos: BlockPosition) -> (r: Result<u8, AccessError>)
        requires
            self.inv(),
        ensures
            !self.spec_loaded(spec_block_to_chunk(pos)) ==> r == Err::<u8, AccessError>(
                AccessError::ChunkAccess(
                    ChunkAccessError::ChunkUnloaded(spec_block_to_chunk(pos)),
                ),
            ),
            self.spec_loaded(spec_block_to_chunk(pos)) && !chunk_in_bounds(
                spec_global_to_local(pos),
            ) ==> r == Err::<u8, AccessError>(
                AccessError::Bounds(BoundsError::OutOfBounds(spec_global_to_local(pos))),
            ),
            self.spec_loaded(spec_block_to_chunk(pos)) && chunk_in_bounds(
                spec_global_to_local(pos),
            ) ==> (r is Ok && r.unwrap() == chunk_item_at(
                self.spec_chunk_at(spec_block_to_chunk(pos))@,
                Field::SkyLight.spec_index(),
                spec_global_to_local(pos),
            )),
    {
        proof {
            self.lemma_field_fits(Field::SkyLight, pos);
        }
        match self.item(Field::SkyLight, pos) {
            Ok(v) => Ok(u8::from_u64(v)),
            Err(e) => Err(e),
        }
    }

    /// Writes the sky-light level at a global position, marking the
    /// owning chunk and its four horizontal neighbours dirty on success.
    pub fn set_sky_light(&mut self, pos: BlockPosition, value: u8) -> (r: Result<(), AccessError>)
        requires
            old(self).inv(),
        ensures
            final(self).inv(),
            final(self).set_field_post(*old(self), pos, Field::SkyLight, value as u64, r),
    {
        proof {
            lemma_width_facts();
        }
        self.set_item(Field::SkyLight, pos, value.to_u64())
    }

    /// Reads the block-light level at a global position.
    pub fn block_light(&self, pos: BlockPosition) -> (r: Result<u8, AccessError>)
        requires
            self.inv(),
        ensures
            !self.spec_loaded(spec_block_to_chunk(pos)) ==> r == Err::<u8, AccessError>(
                AccessError::ChunkAccess(
                    ChunkAccessError::ChunkUnloaded(spec_block_to_chunk(pos)),
                ),
            ),
            self.spec_loaded(spec_block_to_chunk(pos)) && !chunk_in_bounds(
                spec_global_to_local(pos),
            ) ==> r == Err::<u8, AccessError>(
                AccessError::Bounds(BoundsError::OutOfBounds(spec_global_to_local(pos))),
            ),
            self.spec_loaded(spec_block_to_chunk(pos)) && chunk_in_bounds(
                spec_global_to_local(pos),
            ) ==> (r is Ok && r.unwrap() == chunk_item_at(
                self.spec_chunk_at(spec_block_to_chunk(pos))@,
                Field::BlockLight.spec_index(),
                spec_global_to_local(pos),
            )),
    {
        proof {
            self.lemma_field_fits(Field::BlockLight, pos);
        }
        match self.item(Field::BlockLight, pos) {
            Ok(v) => Ok(u8::from_u64(v)),
            Err(e) => Err(e),
        }
    }

    /// Writes the block-light level at a global position, marking the
    /// owning chunk and its four horizontal neighbours dirty on success.
    pub fn set_block_light(&mut self, pos: BlockPosition, value: u8) -> (r: Result<
        (),
        AccessError,
    >)
        requires
            old(self).inv(),
        ensures
            final(self).inv(),
            final(self).set_field_post(*old(self), pos, Field::BlockLight, value as u64, r),
    {
        proof {
            lemma_width_facts();
        }
        self.set_item(Field::BlockLight, pos, value.to_u64())
    }

    /// Reads the exposure flag at a global position.
    pub fn is_exposed(&self, pos: BlockPosition) -> (r: Result<bool, AccessError>)
        requires
            self.inv(),
        ensures
            !self.spec_loaded(spec_block_to_chunk(pos)) ==> r == Err::<bool, AccessError>(
                AccessError::ChunkAccess(
                    ChunkAccessError::ChunkUnloaded(spec_block_to_chunk(pos)),
                ),
            ),
            self.spec_loaded(spec_block_to_chunk(pos)) && !chunk_in_bounds(
                spec_global_to_local(pos),
            ) ==> r == Err::<bool, AccessError>(
                AccessError::Bounds(BoundsError::OutOfBounds(spec_global_to_local(pos))),
            ),
            self.spec_loaded(spec_block_to_chunk(pos)) && chunk_in_bounds(
                spec_global_to_local(pos),
            ) ==> (r is Ok && r.unwrap() == (chunk_item_at(
                self.spec_chunk_at(spec_block_to_chunk(pos))@,
                Field::Exposed.spec_index(),
                spec_global_to_local(pos),
            ) != 0)),
    {
        match self.item(Field::Exposed, pos) {
            Ok(v) => Ok(bool::from_u64(v)),
            Err(e) => Err(e),
        }
    }

    /// Writes the exposure flag at a global position, marking the
    /// owning chunk and its four horizontal neighbours dirty on success.
    pub fn set_is_exposed(&mut self, pos: BlockPosition, value: bool) -> (r: Result<
        (),
        AccessError,
    >)
        requires
            old(self).inv(),
        ensures
            final(self).inv(),
            final(self).set_field_post(*old(self), pos, Field::Exposed, value.spec_to_u64(), r),
    {
        proof {
            lemma_width_facts();
        }
        self.set_item(Field::Exposed, pos, value.to_u64())
    }

    /// What a field write at a global position leaves behind: an exact
    /// error and no change when the chunk is missing or the vertical
    /// coordinate is out of range, else success, the single value
    /// updated, and the owning chunk with its four horizontal
    /// neighbours marked dirty.
    pub open spec fn set_field_post(
        self,
        prev: World,
        pos: BlockPosition,
        f: Field,
        value: u64,
        r: Result<(), AccessError>,
    ) -> bool {
        &&& !prev.spec_loaded(spec_block_to_chunk(pos)) ==> r == Err::<(), AccessError>(
            AccessError::ChunkAccess(ChunkAccessError::ChunkUnloaded(spec_block_to_chunk(pos))),
        ) && self.spec_chunks() == prev.spec_chunks() && self.spec_dirty() == prev.spec_dirty()
        &&& prev.spec_loaded(spec_block_to_chunk(pos)) && !chunk_in_bounds(
            spec_global_to_local(pos),
        ) ==> r == Err::<(), AccessError>(
            AccessError::Bounds(BoundsError::OutOfBounds(spec_global_to_local(pos))),
        ) && self.spec_chunks() == prev.spec_chunks() && self.spec_dirty() == prev.spec_dirty()
        &&& prev.spec_loaded(spec_block_to_chunk(pos)) && chunk_in_bounds(
            spec_global_to_local(pos),
        ) ==> r == Ok::<(), AccessError>(()) && self.spec_chunks() == prev.spec_chunks().insert(
            spec_chunk_key(spec_block_to_chunk(pos)),
            self.spec_chunk_at(spec_block_to_chunk(pos)),
        ) && self.spec_chunk_at(spec_block_to_chunk(pos))@ == chunk_view_with(
            prev.spec_chunk_at(spec_block_to_chunk(pos))@,
            f.spec_index(),
            spec_global_to_local(pos),
            value,
        ) && self.spec_dirty().to_set() == prev.spec_dirty().to_set().union(
            spec_neighborhood(spec_block_to_chunk(pos)),
        )
    }

    /// Every stored representation read back from a loaded position
    /// fits its field's width; an eight-bit field's value is below 256.
    pub proof fn lemma_field_fits(self, f: Field, pos: BlockPosition)
        requires
            self.inv(),
        ensures
            self.spec_loaded(spec_block_to_chunk(pos)) && chunk_in_bounds(
                spec_global_to_local(pos),
            ) ==> chunk_item_at(
                self.spec_chunk_at(spec_block_to_chunk(pos))@,
                f.spec_index(),
                spec_global_to_local(pos),
            ) < (1u64 << spec_bits_at(f.spec_index())) && chunk_item_at(
                self.spec_chunk_at(spec_block_to_chunk(pos))@,
                f.spec_index(),
                spec_global_to_local(pos),
            ) < 256,
    {
        if self.spec_loaded(spec_block_to_chunk(pos)) && chunk_in_bounds(
            spec_global_to_local(pos),
        ) {
            self.spec_chunk_at(spec_block_to_chunk(pos)).lemma_item_fits(
                f,
                spec_global_to_local(pos),
            );
        }
    }

    /// Removes the chunk at `pos` from the world and serialises it with
    /// the binary chunk encoding: the bytes the caller should persist
    /// under that coordinate. The chunk leaves memory only after the
    /// byte stream is fully constructed, and encoding is total, so a
    /// resident chunk is never lost. A missing chunk is an error.
    pub fn unload_chunk(&mut self, pos: ChunkPosition) -> (r: Result<Vec<u8>, ChunkStoreError>)
        requires
            old(self).inv(),
        ensures
            final(self).inv(),
            !old(self).spec_loaded(pos) ==> r == Err::<Vec<u8>, ChunkStoreError>(
                ChunkStoreError::Access(
                    AccessError::ChunkAccess(ChunkAccessError::ChunkUnloaded(pos)),
                ),
            ) && final(self).spec_chunks() == old(self).spec_chunks() && final(self).spec_dirty()
                == old(self).spec_dirty(),
            old(self).spec_loaded(pos) ==> (r matches Ok(bytes) && bytes@ == spec_encode_chunk(
                old(self).spec_chunk_at(pos)@,
            ) && final(self).spec_chunks() == old(self).spec_chunks().remove(spec_chunk_key(pos))
                && final(self).spec_dirty() == old(self).spec_dirty()),
    {
        let key = chunk_key(pos);
        let bytes = match self.chunks.get(&key) {
            None => {
                return Err(
                    ChunkStoreError::Access(
                        AccessError::ChunkAccess(ChunkAccessError::ChunkUnloaded(pos)),
                    ),
                );
            },
            Some(c) => encode_chunk(c),
        };
        self.chunks.remove(&key);
        Ok(bytes)
    }

    /// Decodes a persisted chunk byte stream and inserts the chunk at
    /// `pos`. Fails without mutation if a chunk already occupies `pos`
    /// or the stream is rejected; a loaded chunk is not marked dirty.
    pub fn load_chunk(&mut self, pos: ChunkPosition, bytes: &Vec<u8>) -> (r: Result<
        (),
        ChunkStoreError,
    >)
        requires
            old(self).inv(),
        ensures
            final(self).inv(),
            old(self).spec_loaded(pos) ==> r == Err::<(), ChunkStoreError>(
                ChunkStoreError::ChunkOverwrite(ChunkOverwriteError::ChunkAlreadyLoaded(pos)),
            ) && final(self).spec_chunks() == old(self).spec_chunks() && final(self).spec_dirty()
                == old(self).spec_dirty(),
            !old(self).spec_loaded(pos) && spec_decode_chunk(bytes@) is None ==> (r matches Err(e)
                && e matches ChunkStoreError::Decode(_)) && final(self).spec_chunks() == old(self).spec_chunks() && final(self).spec_dirty() == old(self).spec_dirty(),
            !old(self).spec_loaded(pos) && spec_decode_chunk(bytes@) is Some ==> r == Ok::<
                (),
                ChunkStoreError,
            >(()) && final(self).spec_chunks() == old(self).spec_chunks().insert(
                spec_chunk_key(pos),
                final(self).spec_chunk_at(pos),
            ) && Some(final(self).spec_chunk_at(pos)@) == spec_decode_chunk(bytes@) && final(self).spec_dirty() == old(self).spec_dirty(),
    {
        let key = chunk_key(pos);
        if self.chunks.contains_key(&key) {
            return Err(
                ChunkStoreError::ChunkOverwrite(ChunkOverwriteError::ChunkAlreadyLoaded(pos)),
            );
        }
        match decode_chunk(bytes) {
            Err(e) => Err(ChunkStoreError::Decode(e)),
            Ok(c) => {
                self.chunks.insert(key, c);
                Ok(())
            },
        }
    }

}


/// The chunk-local position at index `k` of the chunk enumeration
/// order: `x` outermost, then `y`, then `z` innermost.
pub open spec fn spec_local_at(k: int) -> BlockPosition {
    BlockPosition {
        x: (k / (CHUNK_HEIGHT * CHUNK_DEPTH) as int) as i32,
        y: ((k / CHUNK_DEPTH as int) % CHUNK_HEIGHT as int) as i32,
        z: (k % CHUNK_DEPTH as int) as i32,
    }
}

/// The enumeration order puts the local position `(x, y, z)` at index
/// `x * HEIGHT * DEPTH + y * DEPTH + z`.
proof fn lemma_local_at_index(x: int, y: int, z: int)
    requires
        0 <= x < CHUNK_WIDTH,
        0 <= y < CHUNK_HEIGHT,
        0 <= z < CHUNK_DEPTH,
    ensures
        spec_local_at(x * (CHUNK_HEIGHT * CHUNK_DEPTH) as int + y * CHUNK_DEPTH as int + z) == (
        BlockPosition { x: x as i32, y: y as i32, z: z as i32 }),
{
    let h = CHUNK_HEIGHT as int;
    let cd = CHUNK_DEPTH as int;
    let hd = (CHUNK_HEIGHT * CHUNK_DEPTH) as int;
    let k = x * hd + y * cd + z;
    assert(0 <= y * cd) by (nonlinear_arith)
        requires
            0 <= y,
            0 < cd,
    ;
    assert(y * cd <= (h - 1) * cd) by {
        vstd::arithmetic::mul::lemma_mul_inequality(y, h - 1, cd);
    }
    assert((h - 1) * cd == h * cd - cd) by (nonlinear_arith);
    assert(hd == h * cd);
    lemma_fundamental_div_mod_converse(k, hd, x, y * cd + z);
    assert((x * h + y) * cd == x * (h * cd) + y * cd) by (nonlinear_arith);
    lemma_fundamental_div_mod_converse(k, cd, x * h + y, z);
    lemma_fundamental_div_mod_converse(x * h + y, h, x, y);
}

/// Every position the enumeration order yields lies inside the chunk
/// volume.
proof fn lemma_local_at_bounds(k: int)
    requires
        0 <= k < CHUNK_VOLUME,
    ensures
        0 <= spec_local_at(k).x < CHUNK_WIDTH,
        0 <= spec_local_at(k).y < CHUNK_HEIGHT,
        0 <= spec_local_at(k).z < CHUNK_DEPTH,
        spec_local_at(k).x == k / (CHUNK_HEIGHT * CHUNK_DEPTH) as int,
        spec_local_at(k).y == (k / CHUNK_DEPTH as int) % CHUNK_HEIGHT as int,
        spec_local_at(k).z == k % CHUNK_DEPTH as int,
{
    let h = CHUNK_HEIGHT as int;
    let cd = CHUNK_DEPTH as int;
    let hd = (CHUNK_HEIGHT * CHUNK_DEPTH) as int;
    assert(CHUNK_VOLUME as int == CHUNK_WIDTH as int * hd) by (nonlinear_arith)
        requires
            hd == h * cd,
            CHUNK_VOLUME as int == CHUNK_WIDTH as int * h * cd,
    ;
    vstd::arithmetic::div_mod::lemma_div_pos_is_pos(k, hd);
    vstd::arithmetic::div_mod::lemma_multiply_divide_lt(k, hd, CHUNK_WIDTH as int);
    assert(hd * (CHUNK_WIDTH as int) == CHUNK_WIDTH as int * hd) by (nonlinear_arith);
    vstd::arithmetic::div_mod::lemma_mod_division_less_than_divisor(k / cd, h);
    vstd::arithmetic::div_mod::lemma_mod_division_less_than_divisor(k, cd);
}

/// The global position at index `k` of the enumeration of all
/// positions covered by a run of chunks: the owning chunk's block
/// origin plus the local position.
pub open spec fn spec_global_coord_at(cps: Seq<ChunkPosition>, k: int) -> BlockPosition {
    let cp = cps[k / CHUNK_VOLUME as int];
    let l = spec_local_at(k % CHUNK_VOLUME as int);
    BlockPosition {
        x: (cp.x * CHUNK_WIDTH as int + l.x) as i32,
        y: (cp.y * CHUNK_HEIGHT as int + l.y) as i32,
        z: l.z,
    }
}

impl World {
    /// Returns all four horizontally adjacent chunk positions.
    pub fn chunk_offsets(pos: ChunkPosition) -> (r: Vec<ChunkPosition>)
        requires
            i32::MIN < pos.x < i32::MAX,
            i32::MIN < pos.y < i32::MAX,
        ensures
            r@ == spec_chunk_offsets(pos),
    {
        chunk_offsets(pos)
    }

    /// Returns the adjacent block positions, with vertical neighbours
    /// outside the chunk depth filtered out.
    pub fn block_offsets(pos: BlockPosition) -> (r: Vec<BlockPosition>)
        requires
            i32::MIN < pos.x < i32::MAX,
            i32::MIN < pos.y < i32::MAX,
            i32::MIN < pos.z < i32::MAX,
        ensures
            r@ == spec_block_offsets(pos),
    {
        block_offsets(pos)
    }

    /// Converts a chunk position to the block position of its zero
    /// corner.
    pub fn chunk_to_block_pos(pos: ChunkPosition) -> (r: BlockPosition)
        requires
            i32::MIN <= pos.x as int * CHUNK_WIDTH as int <= i32::MAX,
            i32::MIN <= pos.y as int * CHUNK_HEIGHT as int <= i32::MAX,
        ensures
            r.x == pos.x as int * CHUNK_WIDTH as int,
            r.y == pos.y as int * CHUNK_HEIGHT as int,
            r.z == 0,
    {
        chunk_to_block_pos(pos)
    }

    /// Gets the chunk position a block position falls into.
    pub fn block_to_chunk_pos(pos: BlockPosition) -> (r: ChunkPosition)
        ensures
            r == spec_block_to_chunk(pos),
    {
        block_to_chunk_pos(pos)
    }

    /// Finds the chunk-local remainder of a global position.
    pub fn global_to_local_pos(pos: BlockPosition) -> (r: BlockPosition)
        ensures
            r == spec_global_to_local(pos),
            0 <= r.x < CHUNK_WIDTH,
            0 <= r.y < CHUNK_HEIGHT,
    {
        global_to_local_pos(pos)
    }

    /// Enumerates all chunk positions within Chebyshev radius `radius`
    /// of `origin`: the inclusive `(2 r + 1)` by `(2 r + 1)` square. A
    /// radius of zero yields one position.
    pub fn positions_in_square(origin: ChunkPosition, radius: u32) -> (r: Vec<ChunkPosition>)
        requires
            i32::MIN <= origin.x - radius,
            origin.x + radius <= i32::MAX,
            i32::MIN <= origin.y - radius,
            origin.y + radius <= i32::MAX,
            (2 * radius + 1) * (2 * radius + 1) <= usize::MAX,
        ensures
            r@.len() == (2 * radius + 1) * (2 * radius + 1),
            forall|k: int|
                0 <= k < r@.len() ==> #[trigger] r@[k] == (ChunkPosition {
                    x: (origin.x - radius + k / (2 * radius + 1) as int) as i32,
                    y: (origin.y - radius + k % (2 * radius + 1) as int) as i32,
                }),
            forall|p: ChunkPosition|
                #[trigger] r@.contains(p) <==> origin.x - radius <= p.x <= origin.x + radius
                    && origin.y - radius <= p.y <= origin.y + radius,
    {
        let side_w: u64 = 2 * (radius as u64) + 1;
        let side: usize = side_w as usize;
        let ghost gside = side as int;
        let mut r: Vec<ChunkPosition> = Vec::new();
        let mut i: usize = 0;
        while i < side
            invariant
                side == 2 * radius + 1,
                gside == side as int,
                i32::MIN <= origin.x - radius,
                origin.x + radius <= i32::MAX,
                i32::MIN <= origin.y - radius,
                origin.y + radius <= i32::MAX,
                i <= side,
                r@.len() == i * gside,
                forall|k: int|
                    0 <= k < r@.len() ==> #[trigger] r@[k] == (ChunkPosition {
                        x: (origin.x - radius + k / gside) as i32,
                        y: (origin.y - radius + k % gside) as i32,
                    }),
            decreases side - i,
        {
            let mut j: usize = 0;
            while j < side
                invariant
                    side == 2 * radius + 1,
                    gside == side as int,
                    i32::MIN <= origin.x - radius,
                    origin.x + radius <= i32::MAX,
                    i32::MIN <= origin.y - radius,
                    origin.y + radius <= i32::MAX,
                    i < side,
                    j <= side,
                    r@.len() == i * gside + j,
                    forall|k: int|
                        0 <= k < r@.len() ==> #[trigger] r@[k] == (ChunkPosition {
                            x: (origin.x - radius + k / gside) as i32,
                            y: (origin.y - radius + k % gside) as i32,
                        }),
                decreases side - j,
            {
                let x = ((origin.x as i64) - (radius as i64) + (i as i64)) as i32;
                let y = ((origin.y as i64) - (radius as i64) + (j as i64)) as i32;
                proof {
                    lemma_fundamental_div_mod_converse(
                        i as int * gside + j as int,
                        gside,
                        i as int,
                        j as int,
                    );
                }
                r.push(ChunkPosition { x, y });
                j = j + 1;
            }
            proof {
                assert((i as int + 1) * gside == i as int * gside + gside) by (nonlinear_arith);
            }
            i = i + 1;
        }
        proof {
            assert(r@.len() == gside * gside);
            assert(r@.len() == (2 * radius + 1) * (2 * radius + 1));
            assert forall|p: ChunkPosition| #[trigger] r@.contains(p) implies origin.x - radius
                <= p.x <= origin.x + radius && origin.y - radius <= p.y <= origin.y + radius by {
                let k = choose|k: int| 0 <= k < r@.len() && r@[k] == p;
                vstd::arithmetic::div_mod::lemma_div_pos_is_pos(k, gside);
                vstd::arithmetic::div_mod::lemma_multiply_divide_lt(k, gside, gside);
                vstd::arithmetic::div_mod::lemma_mod_division_less_than_divisor(k, gside);
            }
            assert forall|p: ChunkPosition|
                origin.x - radius <= p.x <= origin.x + radius && origin.y - radius <= p.y
                    <= origin.y + radius implies #[trigger] r@.contains(p) by {
                let di = p.x - (origin.x - radius);
                let dj = p.y - (origin.y - radius);
                let k = di * gside + dj;
                lemma_fundamental_div_mod_converse(k, gside, di, dj);
                assert(0 <= k < gside * gside) by (nonlinear_arith)
                    requires
                        0 <= di < gside,
                        0 <= dj < gside,
                        k == di * gside + dj,
                ;
                assert(r@[k] == p);
            }
        }
        r
    }

    /// Enumerates every chunk-local block position, `x` outermost, then
    /// `y`, then `z` innermost: a deterministic, restartable traversal.
    pub fn chunk_coords() -> (r: Vec<BlockPosition>)
        ensures
            r@.len() == CHUNK_VOLUME,
            forall|k: int| 0 <= k < r@.len() ==> #[trigger] r@[k] == spec_local_at(k),
    {
        let ghost h = CHUNK_HEIGHT as int;
        let ghost cd = CHUNK_DEPTH as int;
        let ghost hd = (CHUNK_HEIGHT * CHUNK_DEPTH) as int;
        let mut r: Vec<BlockPosition> = Vec::new();
        let mut x: usize = 0;
        while x < CHUNK_WIDTH
            invariant
                hd == (CHUNK_HEIGHT * CHUNK_DEPTH) as int,
                x <= CHUNK_WIDTH,
                r@.len() == x * hd,
                forall|k: int| 0 <= k < r@.len() ==> #[trigger] r@[k] == spec_local_at(k),
            decreases CHUNK_WIDTH - x,
        {
            let mut y: usize = 0;
            while y < CHUNK_HEIGHT
                invariant
                    hd == (CHUNK_HEIGHT * CHUNK_DEPTH) as int,
                    x < CHUNK_WIDTH,
                    y <= CHUNK_HEIGHT,
                    r@.len() == x * hd + y * CHUNK_DEPTH as int,
                    forall|k: int| 0 <= k < r@.len() ==> #[trigger] r@[k] == spec_local_at(k),
                decreases CHUNK_HEIGHT - y,
            {
                let mut z: usize = 0;
                while z < CHUNK_DEPTH
                    invariant
                        hd == (CHUNK_HEIGHT * CHUNK_DEPTH) as int,
                        x < CHUNK_WIDTH,
                        y < CHUNK_HEIGHT,
                        z <= CHUNK_DEPTH,
                        r@.len() == x * hd + y * CHUNK_DEPTH as int + z,
                        forall|k: int| 0 <= k < r@.len() ==> #[trigger] r@[k] == spec_local_at(k),
                    decreases CHUNK_DEPTH - z,
                {
                    proof {
                        lemma_local_at_index(x as int, y as int, z as int);
                    }
                    r.push(BlockPosition { x: x as i32, y: y as i32, z: z as i32 });
                    z = z + 1;
                }
                proof {
                    assert((y as int + 1) * CHUNK_DEPTH as int == y as int * CHUNK_DEPTH as int
                        + CHUNK_DEPTH as int) by (nonlinear_arith);
                }
                y = y + 1;
            }
            proof {
                assert(CHUNK_HEIGHT as int * CHUNK_DEPTH as int == hd);
                assert((x as int + 1) * hd == x as int * hd + hd) by (nonlinear_arith);
            }
            x = x + 1;
        }
        proof {
            assert(CHUNK_WIDTH as int * hd == CHUNK_VOLUME as int) by (nonlinear_arith)
                requires
                    hd == CHUNK_HEIGHT as int * CHUNK_DEPTH as int,
                    CHUNK_VOLUME as int == CHUNK_WIDTH as int * CHUNK_HEIGHT as int
                        * CHUNK_DEPTH as int,
            ;
        }
        r
    }

    /// Enumerates every global block position covered by the passed
    /// chunk positions, chunk by chunk, each traversed in the chunk
    /// enumeration order.
    pub fn global_coords_in_chunks(chunk_positions: &Vec<ChunkPosition>) -> (r: Vec<BlockPosition>)
        requires
            forall|i: int|
                0 <= i < chunk_positions@.len() ==> i32::MIN <= (#[trigger] chunk_positions@[i]).x
                    as int * CHUNK_WIDTH as int && chunk_positions@[i].x as int * CHUNK_WIDTH as int
                    + CHUNK_WIDTH - 1 <= i32::MAX && i32::MIN <= chunk_positions@[i].y as int
                    * CHUNK_HEIGHT as int && chunk_positions@[i].y as int * CHUNK_HEIGHT as int
                    + CHUNK_HEIGHT - 1 <= i32::MAX,
            chunk_positions@.len() * CHUNK_VOLUME <= usize::MAX,
        ensures
            r@.len() == chunk_positions@.len() * CHUNK_VOLUME,
            forall|k: int|
                0 <= k < r@.len() ==> #[trigger] r@[k] == spec_global_coord_at(
                    chunk_positions@,
                    k,
                ),
    {
        let locals = Self::chunk_coords();
        let mut r: Vec<BlockPosition> = Vec::new();
        let mut i: usize = 0;
        let n = chunk_positions.len();
        while i < n
            invariant
                n == chunk_positions@.len(),
                forall|ii: int|
                    0 <= ii < chunk_positions@.len() ==> i32::MIN <= (
                    #[trigger] chunk_positions@[ii]).x as int * CHUNK_WIDTH as int
                        && chunk_positions@[ii].x as int * CHUNK_WIDTH as int + CHUNK_WIDTH - 1
                        <= i32::MAX && i32::MIN <= chunk_positions@[ii].y as int * CHUNK_HEIGHT
                        as int && chunk_positions@[ii].y as int * CHUNK_HEIGHT as int + CHUNK_HEIGHT
                        - 1 <= i32::MAX,
                chunk_positions@.len() * CHUNK_VOLUME <= usize::MAX,
                locals@.len() == CHUNK_VOLUME,
                forall|k: int| 0 <= k < locals@.len() ==> #[trigger] locals@[k] == spec_local_at(k),
                i <= n,
                r@.len() == i * CHUNK_VOLUME as int,
                forall|k: int|
                    0 <= k < r@.len() ==> #[trigger] r@[k] == spec_global_coord_at(
                        chunk_positions@,
                        k,
                    ),
            decreases n - i,
        {
            proof {
                assert((i as int + 1) * CHUNK_VOLUME as int == i as int * CHUNK_VOLUME as int
                    + CHUNK_VOLUME as int) by (nonlinear_arith);
                assert((i as int + 1) * CHUNK_VOLUME as int <= n as int * CHUNK_VOLUME as int) by {
                    vstd::arithmetic::mul::lemma_mul_inequality(
                        i as int + 1,
                        n as int,
                        CHUNK_VOLUME as int,
                    );
                }
            }
            let cp = chunk_positions[i];
            let base = chunk_to_block_pos(cp);
            let mut j: usize = 0;
            while j < CHUNK_VOLUME
                invariant
                    n == chunk_positions@.len(),
                    i < n,
                    cp == chunk_positions@[i as int],
                    base.x == cp.x as int * CHUNK_WIDTH as int,
                    base.y == cp.y as int * CHUNK_HEIGHT as int,
                    base.z == 0,
                    i32::MIN <= base.x,
                    base.x + CHUNK_WIDTH - 1 <= i32::MAX,
                    i32::MIN <= base.y,
                    base.y + CHUNK_HEIGHT - 1 <= i32::MAX,
                    locals@.len() == CHUNK_VOLUME,
                    forall|k: int|
                        0 <= k < locals@.len() ==> #[trigger] locals@[k] == spec_local_at(k),
                    j <= CHUNK_VOLUME,
                    i as int * CHUNK_VOLUME as int + CHUNK_VOLUME as int <= n as int
                        * CHUNK_VOLUME as int,
                    n * CHUNK_VOLUME <= usize::MAX,
                    r@.len() == i * CHUNK_VOLUME as int + j,
                    forall|k: int|
                        0 <= k < r@.len() ==> #[trigger] r@[k] == spec_global_coord_at(
                            chunk_positions@,
                            k,
                        ),
                decreases CHUNK_VOLUME - j,
            {
                let l = locals[j];
                proof {
                    lemma_local_at_bounds(j as int);
                    lemma_fundamental_div_mod_converse(
                        i as int * CHUNK_VOLUME as int + j as int,
                        CHUNK_VOLUME as int,
                        i as int,
                        j as int,
                    );
                }
                r.push(BlockPosition { x: base.x + l.x, y: base.y + l.y, z: l.z });
                j = j + 1;
            }
            i = i + 1;
        }
        r
    }
}

impl Default for World {
    /// The default world has no resident chunks and nothing dirty.
    fn default() -> (r: World)
        ensures
            r.inv(),
            r.spec_chunks() == Map::<u64, Chunk>::empty(),
            r.spec_dirty() == Seq::<ChunkPosition>::empty(),
    {
        World::new()
    }
}

} // verus!

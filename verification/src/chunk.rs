//! A chunk: a fixed vertical stack of optional subchunks over a fixed
//! horizontal footprint, identified by a two dimensional chunk
//! coordinate.
//!
//! An absent subchunk stands for "every field at every covered position
//! holds its default value"; a write collapses a subchunk back to absent
//! when it becomes uniformly default.

use vstd::prelude::*;
use vstd::arithmetic::div_mod::{
    lemma_div_is_ordered, lemma_div_pos_is_pos, lemma_fundamental_div_mod,
    lemma_fundamental_div_mod_converse, lemma_mod_division_less_than_divisor,
};
use crate::coords::{local_to_subchunk_pos, BlockPosition};
use crate::error::BoundsError;
use crate::field::{lemma_width_facts, spec_bits_at, Field, FieldType, NUM_FIELDS};
use crate::section::{all_zero, spec_section_index, SECTION_VOLUME};
use crate::subchunk::{
    sub_all_absent, sub_field_items, sub_view_wf, sub_view_with, Subchunk, SubchunkView,
};
use crate::{CHUNK_DEPTH, CHUNK_HEIGHT, CHUNK_WIDTH, NUM_SUBCHUNKS, SUBCHUNK_DEPTH};

verus! {

/// The abstract state of a chunk: per vertical slot, either absence or
/// the subchunk's state.
pub type ChunkView = Seq<Option<SubchunkView>>;

/// The subchunk state a chunk slot stands for: absence means every
/// field slot absent.
pub open spec fn chunk_sub_view(v: ChunkView, si: int) -> SubchunkView {
    match v[si] {
        None => Seq::new(NUM_FIELDS as nat, |fi: int| None),
        Some(sv) => sv,
    }
}

/// Well-formedness of a chunk view: one slot per subchunk, every
/// resident subchunk well-formed and not uniformly default.
pub open spec fn chunk_view_wf(v: ChunkView) -> bool {
    &&& v.len() == NUM_SUBCHUNKS
    &&& forall|si: int|
        0 <= si < NUM_SUBCHUNKS ==> match #[trigger] v[si] {
            None => true,
            Some(sv) => sub_view_wf(sv) && !sub_all_absent(sv),
        }
}

/// Whether every subchunk slot of a chunk view is absent.
pub open spec fn chunk_all_absent(v: ChunkView) -> bool {
    forall|si: int| 0 <= si < v.len() ==> v[si] is None
}

/// Whether a chunk-local position lies inside the chunk volume.
pub open spec fn chunk_in_bounds(pos: BlockPosition) -> bool {
    &&& 0 <= pos.x < CHUNK_WIDTH
    &&& 0 <= pos.y < CHUNK_HEIGHT
    &&& 0 <= pos.z < CHUNK_DEPTH
}

/// The subchunk-local position of a chunk-local one: the vertical
/// component reduced modulo the subchunk depth.
pub open spec fn spec_local_to_sub(pos: BlockPosition) -> BlockPosition {
    BlockPosition { x: pos.x, y: pos.y, z: (pos.z as int % SUBCHUNK_DEPTH as int) as i32 }
}

/// The index of the subchunk a chunk-local position falls into.
pub open spec fn spec_subchunk_index(pos: BlockPosition) -> int {
    pos.z as int / SUBCHUNK_DEPTH as int
}

/// The stored representation of one field at an in-bounds chunk-local
/// position.
pub open spec fn chunk_item_at(v: ChunkView, fi: int, pos: BlockPosition) -> u64 {
    sub_field_items(chunk_sub_view(v, spec_subchunk_index(pos)), fi)[spec_section_index(
        spec_local_to_sub(pos),
    )]
}

/// A chunk view after one value is written: the owning subchunk is
/// updated, and collapses to absent exactly when it becomes uniformly
/// default.
pub open spec fn chunk_view_with(v: ChunkView, fi: int, pos: BlockPosition, value: u64) -> ChunkView {
    let si = spec_subchunk_index(pos);
    let sv = sub_view_with(
        chunk_sub_view(v, si),
        fi,
        spec_section_index(spec_local_to_sub(pos)),
        value,
    );
    if sub_all_absent(sv) {
        v.update(si, None)
    } else {
        v.update(si, Some(sv))
    }
}

/// A vertical stack of optional subchunks covering the chunk volume.
pub struct Chunk {
    subchunks: Vec<Option<Subchunk>>,
}

impl View for Chunk {
    type V = ChunkView;

    closed spec fn view(&self) -> ChunkView {
        Seq::new(
            NUM_SUBCHUNKS as nat,
            |si: int|
                match self.subchunks@[si] {
                    None => None,
                    Some(sc) => Some(sc@),
                },
        )
    }
}

impl Chunk {
    /// Internal invariant: one slot per subchunk; every resident
    /// subchunk satisfies its own invariant and is not uniformly
    /// default.
    pub closed spec fn inv(self) -> bool {
        &&& self.subchunks@.len() == NUM_SUBCHUNKS
        &&& forall|si: int|
            0 <= si < NUM_SUBCHUNKS ==> match #[trigger] self.subchunks@[si] {
                None => true,
                Some(sc) => sc.inv() && !sub_all_absent(sc@),
            }
    }

    /// The invariant makes the abstract state well-formed.
    pub proof fn lemma_inv_view(self)
        requires
            self.inv(),
        ensures
            chunk_view_wf(self@),
    {
        assert forall|si: int| 0 <= si < NUM_SUBCHUNKS implies match #[trigger] self@[si] {
            None => true,
            Some(sv) => sub_view_wf(sv) && !sub_all_absent(sv),
        } by {
            match self.subchunks@[si] {
                None => {},
                Some(sc) => {
                    sc.lemma_inv_view();
                },
            }
        }
    }

    /// Creates a chunk with every subchunk slot absent: all values
    /// default.
    pub fn new() -> (r: Chunk)
        ensures
            r.inv(),
            r@.len() == NUM_SUBCHUNKS,
            chunk_all_absent(r@),
    {
        let mut subchunks: Vec<Option<Subchunk>> = Vec::new();
        let mut si: usize = 0;
        while si < NUM_SUBCHUNKS
            invariant
                subchunks@.len() == si,
                si <= NUM_SUBCHUNKS,
                forall|j: int| 0 <= j < subchunks@.len() ==> subchunks@[j] is None,
            decreases NUM_SUBCHUNKS - si,
        {
            subchunks.push(None);
            si = si + 1;
        }
        Chunk { subchunks }
    }

    /// Returns true exactly when every subchunk slot is absent; with the
    /// invariant that is exactly when every value is default.
    pub fn is_empty(&self) -> (r: bool)
        requires
            self.inv(),
        ensures
            r == chunk_all_absent(self@),
    {
        let mut si: usize = 0;
        while si < NUM_SUBCHUNKS
            invariant
                self.inv(),
                si <= NUM_SUBCHUNKS,
                forall|j: int| 0 <= j < si ==> self@[j] is None,
            decreases NUM_SUBCHUNKS - si,
        {
            if self.subchunks[si].is_some() {
                proof {
                    assert(self@[si as int] is Some);
                }
                return false;
            }
            si = si + 1;
        }
        true
    }

    /// Reads the stored representation of one field at an in-bounds
    /// chunk-local position; absent levels read as the default value
    /// zero. A position outside the chunk volume is a bounds error,
    /// never a panic and never clamped.
    pub fn item(&self, f: Field, pos: BlockPosition) -> (r: Result<u64, BoundsError>)
        requires
            self.inv(),
        ensures
            chunk_in_bounds(pos) ==> r == Ok::<u64, BoundsError>(
                chunk_item_at(self@, f.spec_index(), pos),
            ),
            !chunk_in_bounds(pos) ==> r == Err::<u64, BoundsError>(
                BoundsError::OutOfBounds(pos),
            ),
    {
        if pos.x < 0 || pos.x >= CHUNK_WIDTH as i32 || pos.y < 0 || pos.y >= CHUNK_HEIGHT as i32
            || pos.z < 0 || pos.z >= CHUNK_DEPTH as i32 {
            return Err(BoundsError::OutOfBounds(pos));
        }
        proof {
            lemma_div_pos_is_pos(pos.z as int, SUBCHUNK_DEPTH as int);
            lemma_div_is_ordered(pos.z as int, CHUNK_DEPTH - 1, SUBCHUNK_DEPTH as int);
        }
        let si = (pos.z as usize) / SUBCHUNK_DEPTH;
        let local = local_to_subchunk_pos(pos);
        match &self.subchunks[si] {
            None => Ok(0),
            Some(sc) => match sc.item(f, local) {
                Ok(v) => Ok(v),
                Err(e) => Err(e),
            },
        }
    }

    /// Writes the stored representation of one field at an in-bounds
    /// chunk-local position, materialising the owning subchunk lazily
    /// and collapsing it back to absent when it becomes uniformly
    /// default; a default write into an absent subchunk changes nothing.
    /// A position outside the chunk volume is a bounds error and changes
    /// nothing.
    pub fn set_item(&mut self, f: Field, pos: BlockPosition, value: u64) -> (r: Result<
        (),
        BoundsError,
    >)
        requires
            old(self).inv(),
            value < (1u64 << spec_bits_at(f.spec_index())),
        ensures
            final(self).inv(),
            chunk_in_bounds(pos) ==> r == Ok::<(), BoundsError>(()) && final(self)@
                == chunk_view_with(old(self)@, f.spec_index(), pos, value),
            !chunk_in_bounds(pos) ==> r == Err::<(), BoundsError>(BoundsError::OutOfBounds(pos))
                && final(self)@ == old(self)@,
    {
        if pos.x < 0 || pos.x >= CHUNK_WIDTH as i32 || pos.y < 0 || pos.y >= CHUNK_HEIGHT as i32
            || pos.z < 0 || pos.z >= CHUNK_DEPTH as i32 {
            return Err(BoundsError::OutOfBounds(pos));
        }
        proof {
            lemma_div_pos_is_pos(pos.z as int, SUBCHUNK_DEPTH as int);
            lemma_div_is_ordered(pos.z as int, CHUNK_DEPTH - 1, SUBCHUNK_DEPTH as int);
        }
        let ghost old_view = self@;
        let ghost gfi = f.spec_index();
        let si = (pos.z as usize) / SUBCHUNK_DEPTH;
        let ghost gsi = si as int;
        let local = local_to_subchunk_pos(pos);
        let ghost gidx = spec_section_index(spec_local_to_sub(pos));
        let sub_opt = self.subchunks.remove(si);
        match sub_opt {
            None => {
                if value == 0 {
                    self.subchunks.insert(si, None);
                    proof {
                        assert(self.subchunks@ =~= old(self).subchunks@);
                        assert(self@ =~= old_view);
                        let empty_sv = chunk_sub_view(old_view, gsi);
                        let items = sub_field_items(empty_sv, gfi).update(gidx, 0u64);
                        assert(all_zero(items)) by {
                            assert forall|k: int| 0 <= k < items.len() implies items[k] == 0 by {}
                        }
                        let sv = sub_view_with(empty_sv, gfi, gidx, 0u64);
                        assert(sv =~= empty_sv.update(gfi, None));
                        assert(sub_all_absent(sv));
                        assert(chunk_view_with(old_view, gfi, pos, 0u64) =~= old_view);
                    }
                } else {
                    let mut sc = Subchunk::new();
                    let ghost fresh_sv = sc@;
                    match sc.set_item(f, local, value) {
                        Ok(_) => {},
                        Err(_) => {},
                    }
                    proof {
                        let empty_sv = chunk_sub_view(old_view, gsi);
                        assert(fresh_sv =~= empty_sv);
                        assert(sc@ == sub_view_with(empty_sv, gfi, gidx, value));
                        assert(!sub_all_absent(sc@)) by {
                            let items = sub_field_items(empty_sv, gfi).update(gidx, value);
                            assert(items[gidx] == value);
                            assert(!all_zero(items));
                            assert(sc@[gfi] is Some);
                        }
                    }
                    self.subchunks.insert(si, Some(sc));
                    proof {
                        assert(self.subchunks@ =~= old(self).subchunks@.update(gsi, Some(sc)));
                        assert(self@ =~= chunk_view_with(old_view, gfi, pos, value));
                    }
                }
            },
            Some(mut sc) => {
                let ghost sc_old = sc@;
                match sc.set_item(f, local, value) {
                    Ok(_) => {},
                    Err(_) => {},
                }
                proof {
                    assert(chunk_sub_view(old_view, gsi) == sc_old);
                    assert(sc@ == sub_view_with(sc_old, gfi, gidx, value));
                }
                let empty = sc.is_empty();
                if empty {
                    self.subchunks.insert(si, None);
                    proof {
                        assert(self.subchunks@ =~= old(self).subchunks@.update(gsi, None));
                        assert(self@ =~= chunk_view_with(old_view, gfi, pos, value));
                    }
                } else {
                    self.subchunks.insert(si, Some(sc));
                    proof {
                        assert(self.subchunks@ =~= old(self).subchunks@.update(gsi, Some(sc)));
                        assert(self@ =~= chunk_view_with(old_view, gfi, pos, value));
                    }
                }
            },
        }
        Ok(())
    }


    /// The subchunk table, for the persistence codec.
    pub(crate) fn subchunk_at(&self, si: usize) -> (r: &Option<Subchunk>)
        requires
            self.inv(),
            si < NUM_SUBCHUNKS,
        ensures
            (*r) is None <==> self@[si as int] is None,
            (*r) matches Some(sc) ==> self@[si as int] == Some(sc@) && sc.inv()
                && !sub_all_absent(sc@),
    {
        &self.subchunks[si]
    }

    /// Rebuilds a chunk from a canonical subchunk table, for the
    /// persistence codec.
    pub(crate) fn from_subchunks(subchunks: Vec<Option<Subchunk>>) -> (r: Chunk)
        requires
            subchunks@.len() == NUM_SUBCHUNKS,
            forall|si: int|
                0 <= si < NUM_SUBCHUNKS ==> match #[trigger] subchunks@[si] {
                    None => true,
                    Some(sc) => sc.inv() && !sub_all_absent(sc@),
                },
        ensures
            r.inv(),
            r@.len() == NUM_SUBCHUNKS,
            forall|si: int|
                0 <= si < NUM_SUBCHUNKS ==> #[trigger] r@[si] == (match subchunks@[si] {
                    None => None::<SubchunkView>,
                    Some(sc) => Some(sc@),
                }),
    {
        Chunk { subchunks }
    }

    /// Reads the block-type tag at an in-bounds chunk-local position.
    pub fn block(&self, pos: BlockPosition) -> (r: Result<u8, BoundsError>)
        requires
            self.inv(),
        ensures
            chunk_in_bounds(pos) ==> r is Ok && r.unwrap() == chunk_item_at(
                self@,
                Field::BlockType.spec_index(),
                pos,
            ),
            !chunk_in_bounds(pos) ==> r == Err::<u8, BoundsError>(BoundsError::OutOfBounds(pos)),
    {
        proof {
            self.lemma_item_fits(Field::BlockType, pos);
        }
        match self.item(Field::BlockType, pos) {
            Ok(v) => Ok(u8::from_u64(v)),
            Err(e) => Err(e),
        }
    }

    /// Writes the block-type tag at an in-bounds chunk-local position.
    pub fn set_block(&mut self, pos: BlockPosition, value: u8) -> (r: Result<(), BoundsError>)
        requires
            old(self).inv(),
        ensures
            final(self).inv(),
            chunk_in_bounds(pos) ==> r == Ok::<(), BoundsError>(()) && final(self)@
                == chunk_view_with(
                old(self)@,
                Field::BlockType.spec_index(),
                pos,
                value as u64,
            ),
            !chunk_in_bounds(pos) ==> r == Err::<(), BoundsError>(BoundsError::OutOfBounds(pos))
                && final(self)@ == old(self)@,
    {
        proof {
            lemma_width_facts();
        }
        self.set_item(Field::BlockType, pos, value.to_u64())
    }

    /// Reads the sky-light level at an in-bounds chunk-local position.
    pub fn sky_light(&self, pos: BlockPosition) -> (r: Result<u8, BoundsError>)
        requires
            self.inv(),
        ensures
            chunk_in_bounds(pos) ==> r is Ok && r.unwrap() == chunk_item_at(
                self@,
                Field::SkyLight.spec_index(),
                pos,
            ),
            !chunk_in_bounds(pos) ==> r == Err::<u8, BoundsError>(BoundsError::OutOfBounds(pos)),
    {
        proof {
            self.lemma_item_fits(Field::SkyLight, pos);
        }
        match self.item(Field::SkyLight, pos) {
            Ok(v) => Ok(u8::from_u64(v)),
            Err(e) => Err(e),
        }
    }

    /// Writes the sky-light level at an in-bounds chunk-local position.
    pub fn set_sky_light(&mut self, pos: BlockPosition, value: u8) -> (r: Result<(), BoundsError>)
        requires
            old(self).inv(),
        ensures
            final(self).inv(),
            chunk_in_bounds(pos) ==> r == Ok::<(), BoundsError>(()) && final(self)@
                == chunk_view_with(
                old(self)@,
                Field::SkyLight.spec_index(),
                pos,
                value as u64,
            ),
            !chunk_in_bounds(pos) ==> r == Err::<(), BoundsError>(BoundsError::OutOfBounds(pos))
                && final(self)@ == old(self)@,
    {
        proof {
            lemma_width_facts();
        }
        self.set_item(Field::SkyLight, pos, value.to_u64())
    }

    /// Reads the block-light level at an in-bounds chunk-local position.
    pub fn block_light(&self, pos: BlockPosition) -> (r: Result<u8, BoundsError>)
        requires
            self.inv(),
        ensures
            chunk_in_bounds(pos) ==> r is Ok && r.unwrap() == chunk_item_at(
                self@,
                Field::BlockLight.spec_index(),
                pos,
            ),
            !chunk_in_bounds(pos) ==> r == Err::<u8, BoundsError>(BoundsError::OutOfBounds(pos)),
    {
        proof {
            self.lemma_item_fits(Field::BlockLight, pos);
        }
        match self.item(Field::BlockLight, pos) {
            Ok(v) => Ok(u8::from_u64(v)),
            Err(e) => Err(e),
        }
    }

    /// Writes the block-light level at an in-bounds chunk-local
    /// position.
    pub fn set_block_light(&mut self, pos: BlockPosition, value: u8) -> (r: Result<
        (),
        BoundsError,
    >)
        requires
            old(self).inv(),
        ensures
            final(self).inv(),
            chunk_in_bounds(pos) ==> r == Ok::<(), BoundsError>(()) && final(self)@
                == chunk_view_with(
                old(self)@,
                Field::BlockLight.spec_index(),
                pos,
                value as u64,
            ),
            !chunk_in_bounds(pos) ==> r == Err::<(), BoundsError>(BoundsError::OutOfBounds(pos))
                && final(self)@ == old(self)@,
    {
        proof {
            lemma_width_facts();
        }
        self.set_item(Field::BlockLight, pos, value.to_u64())
    }

    /// Reads the exposure flag at an in-bounds chunk-local position.
    pub fn is_exposed(&self, pos: BlockPosition) -> (r: Result<bool, BoundsError>)
        requires
            self.inv(),
        ensures
            chunk_in_bounds(pos) ==> r is Ok && r.unwrap() == (chunk_item_at(
                self@,
                Field::Exposed.spec_index(),
                pos,
            ) != 0),
            !chunk_in_bounds(pos) ==> r == Err::<bool, BoundsError>(
                BoundsError::OutOfBounds(pos),
            ),
    {
        match self.item(Field::Exposed, pos) {
            Ok(v) => Ok(bool::from_u64(v)),
            Err(e) => Err(e),
        }
    }

    /// Writes the exposure flag at an in-bounds chunk-local position.
    pub fn set_is_exposed(&mut self, pos: BlockPosition, value: bool) -> (r: Result<
        (),
        BoundsError,
    >)
        requires
            old(self).inv(),
        ensures
            final(self).inv(),
            chunk_in_bounds(pos) ==> r == Ok::<(), BoundsError>(()) && final(self)@
                == chunk_view_with(
                old(self)@,
                Field::Exposed.spec_index(),
                pos,
                value.spec_to_u64(),
            ),
            !chunk_in_bounds(pos) ==> r == Err::<(), BoundsError>(BoundsError::OutOfBounds(pos))
                && final(self)@ == old(self)@,
    {
        proof {
            lemma_width_facts();
        }
        self.set_item(Field::Exposed, pos, value.to_u64())
    }

    /// Every stored representation read from an in-bounds position fits
    /// the field's width; in particular an eight-bit field's value is
    /// below 256.
    pub proof fn lemma_item_fits(self, f: Field, pos: BlockPosition)
        requires
            self.inv(),
        ensures
            chunk_in_bounds(pos) ==> chunk_item_at(self@, f.spec_index(), pos) < (1u64
                << spec_bits_at(f.spec_index())),
            chunk_in_bounds(pos) ==> chunk_item_at(self@, f.spec_index(), pos) < 256,
    {
        lemma_width_facts();
        if chunk_in_bounds(pos) {
            self.lemma_inv_view();
            let gsi = spec_subchunk_index(pos);
            let gidx = spec_section_index(spec_local_to_sub(pos));
            lemma_div_pos_is_pos(pos.z as int, SUBCHUNK_DEPTH as int);
            lemma_div_is_ordered(pos.z as int, CHUNK_DEPTH - 1, SUBCHUNK_DEPTH as int);
            lemma_mod_division_less_than_divisor(pos.z as int, SUBCHUNK_DEPTH as int);
            let sv = chunk_sub_view(self@, gsi);
            match self@[gsi] {
                None => {},
                Some(_) => {
                    match sv[f.spec_index()] {
                        None => {},
                        Some(items) => {},
                    }
                },
            }
        }
    }
}

impl Default for Chunk {
    /// The default chunk has every subchunk slot absent.
    fn default() -> (r: Chunk)
        ensures
            r.inv(),
            r@.len() == NUM_SUBCHUNKS,
            chunk_all_absent(r@),
    {
        Chunk::new()
    }
}


/// Sparse no-op law: writing a field's default value at a position whose
/// subchunk is absent leaves the chunk state exactly as it was — nothing
/// is allocated and nothing observable changes.
pub proof fn lemma_default_write_is_noop(v: ChunkView, fi: int, pos: BlockPosition)
    requires
        v.len() == NUM_SUBCHUNKS,
        0 <= fi < NUM_FIELDS,
        chunk_in_bounds(pos),
        v[spec_subchunk_index(pos)] is None,
    ensures
        chunk_view_with(v, fi, pos, 0) == v,
{
    lemma_div_pos_is_pos(pos.z as int, SUBCHUNK_DEPTH as int);
    lemma_div_is_ordered(pos.z as int, CHUNK_DEPTH - 1, SUBCHUNK_DEPTH as int);
    let si = spec_subchunk_index(pos);
    let empty_sv = chunk_sub_view(v, si);
    let gidx = spec_section_index(spec_local_to_sub(pos));
    let items = sub_field_items(empty_sv, fi).update(gidx, 0u64);
    assert(all_zero(items)) by {
        assert forall|k: int| 0 <= k < items.len() implies items[k] == 0 by {}
    }
    let sv = sub_view_with(empty_sv, fi, gidx, 0u64);
    assert(sv =~= empty_sv.update(fi, None::<Seq<u64>>));
    assert(sub_all_absent(sv));
    assert(chunk_view_with(v, fi, pos, 0) =~= v);
}

/// Sparse-reclaim law: under the canonical invariant a chunk whose
/// values are all default holds no subchunk at all — overwriting the
/// last non-default value back to default leaves the chunk observably
/// and structurally empty, its memory reclaimed.
pub proof fn lemma_all_default_absent(v: ChunkView)
    requires
        chunk_view_wf(v),
        forall|fi: int, pos: BlockPosition|
            0 <= fi < NUM_FIELDS && chunk_in_bounds(pos) ==> #[trigger] chunk_item_at(
                v,
                fi,
                pos,
            ) == 0,
    ensures
        chunk_all_absent(v),
{
    assert forall|si: int| 0 <= si < v.len() implies v[si] is None by {
        if v[si] is Some {
            let sv = chunk_sub_view(v, si);
            assert(!sub_all_absent(sv));
            let fi = choose|fi: int| 0 <= fi < sv.len() && !(#[trigger] sv[fi] is None);
            let items = sv[fi].unwrap();
            assert(!all_zero(items));
            let k = choose|k: int| 0 <= k < items.len() && #[trigger] items[k] != 0;
            let x = k / (CHUNK_HEIGHT * SUBCHUNK_DEPTH) as int;
            let r1 = k % (CHUNK_HEIGHT * SUBCHUNK_DEPTH) as int;
            let y = r1 / SUBCHUNK_DEPTH as int;
            let zs = r1 % SUBCHUNK_DEPTH as int;
            lemma_fundamental_div_mod(k, (CHUNK_HEIGHT * SUBCHUNK_DEPTH) as int);
            lemma_mod_division_less_than_divisor(k, (CHUNK_HEIGHT * SUBCHUNK_DEPTH) as int);
            lemma_fundamental_div_mod(r1, SUBCHUNK_DEPTH as int);
            lemma_mod_division_less_than_divisor(r1, SUBCHUNK_DEPTH as int);
            lemma_div_pos_is_pos(k, (CHUNK_HEIGHT * SUBCHUNK_DEPTH) as int);
            lemma_div_pos_is_pos(r1, SUBCHUNK_DEPTH as int);
            lemma_div_is_ordered(k, (SECTION_VOLUME - 1) as int, (CHUNK_HEIGHT * SUBCHUNK_DEPTH) as int);
            lemma_div_is_ordered(r1, (CHUNK_HEIGHT * SUBCHUNK_DEPTH - 1) as int, SUBCHUNK_DEPTH as int);
            let z = si * SUBCHUNK_DEPTH as int + zs;
            let pos = BlockPosition { x: x as i32, y: y as i32, z: z as i32 };
            lemma_fundamental_div_mod_converse(z, SUBCHUNK_DEPTH as int, si, zs);
            assert(spec_subchunk_index(pos) == si);
            assert(spec_local_to_sub(pos) == (BlockPosition {
                x: x as i32,
                y: y as i32,
                z: zs as i32,
            }));
            assert(spec_section_index(spec_local_to_sub(pos)) == k);
            assert(chunk_in_bounds(pos));
            assert(chunk_item_at(v, fi, pos) == items[k]);
            assert(false);
        }
    }
}

} // verus!

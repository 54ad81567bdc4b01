//! A subchunk: one optional section per field, covering a fixed-depth
//! horizontal slab of a chunk.
//!
//! An absent section stands for "every value is the field's default".
//! The canonical-sparseness invariant keeps the two in step: a section is
//! resident exactly while some of its values is non-default, and is
//! reclaimed by the write that makes it uniformly default again.

use vstd::prelude::*;
use crate::coords::BlockPosition;
use crate::error::BoundsError;
use crate::field::{lemma_width_facts, spec_bits_at, Field, FieldType, NUM_FIELDS};
use crate::section::{
    all_zero, section_in_bounds, section_index, spec_section_index, Section, SECTION_VOLUME,
};

verus! {

/// The abstract state of a subchunk: per field, either absence or the
/// stored value sequence.
pub type SubchunkView = Seq<Option<Seq<u64>>>;

/// The values one field of a subchunk holds: an absent section stands
/// for all-default.
pub open spec fn sub_field_items(v: SubchunkView, fi: int) -> Seq<u64> {
    match v[fi] {
        None => Seq::new(SECTION_VOLUME as nat, |i: int| 0u64),
        Some(items) => items,
    }
}

/// Well-formedness of a subchunk view: one slot per field, and every
/// resident section canonical — full length, values within the field's
/// width, not uniformly default.
pub open spec fn sub_view_wf(v: SubchunkView) -> bool {
    &&& v.len() == NUM_FIELDS
    &&& forall|fi: int|
        0 <= fi < NUM_FIELDS ==> match #[trigger] v[fi] {
            None => true,
            Some(items) => {
                &&& items.len() == SECTION_VOLUME
                &&& !all_zero(items)
                &&& forall|k: int|
                    0 <= k < SECTION_VOLUME ==> #[trigger] items[k] < (1u64 << spec_bits_at(fi))
            },
        }
}

/// Whether every field slot of a subchunk view is absent.
pub open spec fn sub_all_absent(v: SubchunkView) -> bool {
    forall|fi: int| 0 <= fi < v.len() ==> v[fi] is None
}

/// A subchunk view after one value is written: the field's values are
/// updated, and the section collapses to absent exactly when the result
/// is uniformly default.
pub open spec fn sub_view_with(v: SubchunkView, fi: int, idx: int, value: u64) -> SubchunkView {
    let items = sub_field_items(v, fi).update(idx, value);
    if all_zero(items) {
        v.update(fi, None)
    } else {
        v.update(fi, Some(items))
    }
}


/// Sparse-reclaim law at the subchunk level: under the canonical
/// invariant a subchunk whose values are all default holds no section at
/// all.
pub proof fn lemma_sub_all_default_absent(sv: SubchunkView)
    requires
        sub_view_wf(sv),
        forall|fi: int, k: int|
            0 <= fi < NUM_FIELDS && 0 <= k < SECTION_VOLUME ==> #[trigger] sub_field_items(
                sv,
                fi,
            )[k] == 0,
    ensures
        sub_all_absent(sv),
{
    assert forall|fi: int| 0 <= fi < sv.len() implies sv[fi] is None by {
        if sv[fi] is Some {
            let items = sv[fi].unwrap();
            assert(!all_zero(items));
            let k = choose|k: int| 0 <= k < items.len() && #[trigger] items[k] != 0;
            assert(sub_field_items(sv, fi)[k] == 0);
        }
    }
}

/// A group of optional sections, one per field, covering one subchunk
/// volume.
pub struct Subchunk {
    sections: Vec<Option<Section>>,
}

impl View for Subchunk {
    type V = SubchunkView;

    closed spec fn view(&self) -> SubchunkView {
        Seq::new(
            NUM_FIELDS as nat,
            |fi: int|
                match self.sections@[fi] {
                    None => None,
                    Some(s) => Some(s@),
                },
        )
    }
}

impl Subchunk {
    /// Internal invariant: one slot per field; every resident section is
    /// well-formed, packed with its field's width, and not uniformly
    /// default.
    pub closed spec fn inv(self) -> bool {
        &&& self.sections@.len() == NUM_FIELDS
        &&& forall|fi: int|
            0 <= fi < NUM_FIELDS ==> match #[trigger] self.sections@[fi] {
                None => true,
                Some(s) => {
                    &&& s.wf()
                    &&& s.spec_bits() == spec_bits_at(fi)
                    &&& !all_zero(s@)
                },
            }
    }

    /// The invariant makes the abstract state well-formed.
    pub proof fn lemma_inv_view(self)
        requires
            self.inv(),
        ensures
            sub_view_wf(self@),
    {
        assert forall|fi: int| 0 <= fi < NUM_FIELDS implies match #[trigger] self@[fi] {
            None => true,
            Some(items) => {
                &&& items.len() == SECTION_VOLUME
                &&& !all_zero(items)
                &&& forall|k: int|
                    0 <= k < SECTION_VOLUME ==> #[trigger] items[k] < (1u64 << spec_bits_at(fi))
            },
        } by {
            match self.sections@[fi] {
                None => {},
                Some(s) => {
                    s.lemma_view();
                },
            }
        }
    }

    /// Creates a subchunk with every field slot absent: all values
    /// default.
    pub fn new() -> (r: Subchunk)
        ensures
            r.inv(),
            r@.len() == NUM_FIELDS,
            sub_all_absent(r@),
    {
        let mut sections: Vec<Option<Section>> = Vec::new();
        sections.push(None);
        sections.push(None);
        sections.push(None);
        sections.push(None);
        Subchunk { sections }
    }

    /// Returns true exactly when every field slot is absent; with the
    /// invariant that is exactly when every value is default.
    pub fn is_empty(&self) -> (r: bool)
        requires
            self.inv(),
        ensures
            r == sub_all_absent(self@),
    {
        let mut fi: usize = 0;
        while fi < NUM_FIELDS
            invariant
                self.inv(),
                fi <= NUM_FIELDS,
                forall|j: int| 0 <= j < fi ==> self@[j] is None,
            decreases NUM_FIELDS - fi,
        {
            if self.sections[fi].is_some() {
                proof {
                    assert(self@[fi as int] is Some);
                }
                return false;
            }
            fi = fi + 1;
        }
        true
    }

    /// Reads the stored representation of one field at an in-bounds
    /// position; an absent section reads as the default value zero.
    pub fn item(&self, f: Field, pos: BlockPosition) -> (r: Result<u64, BoundsError>)
        requires
            self.inv(),
        ensures
            section_in_bounds(pos) ==> r == Ok::<u64, BoundsError>(
                sub_field_items(self@, f.spec_index())[spec_section_index(pos)],
            ),
            !section_in_bounds(pos) ==> r == Err::<u64, BoundsError>(
                BoundsError::OutOfBounds(pos),
            ),
    {
        if pos.x < 0 || pos.x >= crate::CHUNK_WIDTH as i32 || pos.y < 0 || pos.y
            >= crate::CHUNK_HEIGHT as i32 || pos.z < 0 || pos.z >= crate::SUBCHUNK_DEPTH as i32 {
            return Err(BoundsError::OutOfBounds(pos));
        }
        let fi = f.index();
        match &self.sections[fi] {
            None => Ok(0),
            Some(s) => match s.item(pos) {
                Ok(v) => Ok(v),
                Err(e) => Err(e),
            },
        }
    }

    /// Writes the stored representation of one field at an in-bounds
    /// position, lazily allocating the section and reclaiming it when it
    /// becomes uniformly default; a default write into an absent section
    /// changes nothing and allocates nothing.
    pub fn set_item(&mut self, f: Field, pos: BlockPosition, value: u64) -> (r: Result<
        (),
        BoundsError,
    >)
        requires
            old(self).inv(),
            value < (1u64 << spec_bits_at(f.spec_index())),
        ensures
            final(self).inv(),
            section_in_bounds(pos) ==> r == Ok::<(), BoundsError>(()) && final(self)@
                == sub_view_with(
                old(self)@,
                f.spec_index(),
                spec_section_index(pos),
                value,
            ),
            !section_in_bounds(pos) ==> r == Err::<(), BoundsError>(BoundsError::OutOfBounds(pos))
                && final(self)@ == old(self)@,
    {
        if pos.x < 0 || pos.x >= crate::CHUNK_WIDTH as i32 || pos.y < 0 || pos.y
            >= crate::CHUNK_HEIGHT as i32 || pos.z < 0 || pos.z >= crate::SUBCHUNK_DEPTH as i32 {
            return Err(BoundsError::OutOfBounds(pos));
        }
        let ghost old_view = self@;
        let fi = f.index();
        let idx = section_index(pos);
        let ghost gfi = fi as int;
        let ghost gidx = idx as int;
        let s_opt = self.sections.remove(fi);
        match s_opt {
            None => {
                if value == 0 {
                    self.sections.insert(fi, None);
                    proof {
                        assert(self.sections@ =~= old(self).sections@);
                        assert(self@ =~= old_view);
                        let items = sub_field_items(old_view, gfi).update(gidx, value);
                        assert(all_zero(items)) by {
                            assert forall|k: int| 0 <= k < items.len() implies items[k] == 0 by {}
                        }
                        assert(sub_view_with(old_view, gfi, gidx, value) =~= old_view);
                    }
                } else {
                    let mut s = Section::new(f.bits());
                    s.set_item_at_index(idx, value);
                    self.sections.insert(fi, Some(s));
                    proof {
                        assert(s@ =~= sub_field_items(old_view, gfi).update(gidx, value));
                        assert(!all_zero(s@)) by {
                            assert(s@[gidx] == value);
                        }
                        assert(self.sections@ =~= old(self).sections@.update(gfi, Some(s)));
                        assert(self@ =~= sub_view_with(old_view, gfi, gidx, value));
                    }
                }
            },
            Some(mut s) => {
                s.set_item_at_index(idx, value);
                let empty = s.is_empty();
                if empty {
                    self.sections.insert(fi, None);
                    proof {
                        assert(s@ =~= sub_field_items(old_view, gfi).update(gidx, value));
                        assert(self.sections@ =~= old(self).sections@.update(gfi, None));
                        assert(self@ =~= sub_view_with(old_view, gfi, gidx, value));
                    }
                } else {
                    self.sections.insert(fi, Some(s));
                    proof {
                        assert(s@ =~= sub_field_items(old_view, gfi).update(gidx, value));
                        assert(self.sections@ =~= old(self).sections@.update(gfi, Some(s)));
                        assert(self@ =~= sub_view_with(old_view, gfi, gidx, value));
                    }
                }
            },
        }
        Ok(())
    }


    /// The section table, for the persistence codec.
    pub(crate) fn section_at(&self, fi: usize) -> (r: &Option<Section>)
        requires
            self.inv(),
            fi < NUM_FIELDS,
        ensures
            (*r) is None <==> self@[fi as int] is None,
            (*r) matches Some(s) ==> self@[fi as int] == Some(s@) && s.wf() && s.spec_bits()
                == spec_bits_at(fi as int) && !all_zero(s@),
    {
        &self.sections[fi]
    }

    /// Rebuilds a subchunk from a canonical section table, for the
    /// persistence codec.
    pub(crate) fn from_sections(sections: Vec<Option<Section>>) -> (r: Subchunk)
        requires
            sections@.len() == NUM_FIELDS,
            forall|fi: int|
                0 <= fi < NUM_FIELDS ==> match #[trigger] sections@[fi] {
                    None => true,
                    Some(s) => s.wf() && s.spec_bits() == spec_bits_at(fi) && !all_zero(s@),
                },
        ensures
            r.inv(),
            r@.len() == NUM_FIELDS,
            forall|fi: int|
                0 <= fi < NUM_FIELDS ==> #[trigger] r@[fi] == (match sections@[fi] {
                    None => None::<Seq<u64>>,
                    Some(s) => Some(s@),
                }),
    {
        Subchunk { sections }
    }

    /// Reads the block-type tag at an in-bounds position.
    pub fn block(&self, pos: BlockPosition) -> (r: Result<u8, BoundsError>)
        requires
            self.inv(),
        ensures
            section_in_bounds(pos) ==> r is Ok && r.unwrap() == sub_field_items(
                self@,
                Field::BlockType.spec_index(),
            )[spec_section_index(pos)],
            !section_in_bounds(pos) ==> r == Err::<u8, BoundsError>(BoundsError::OutOfBounds(pos)),
    {
        proof {
            self.lemma_inv_view();
            lemma_width_facts();
        }
        match self.item(Field::BlockType, pos) {
            Ok(v) => Ok(u8::from_u64(v)),
            Err(e) => Err(e),
        }
    }

    /// Writes the block-type tag at an in-bounds position.
    pub fn set_block(&mut self, pos: BlockPosition, value: u8) -> (r: Result<(), BoundsError>)
        requires
            old(self).inv(),
        ensures
            final(self).inv(),
            section_in_bounds(pos) ==> r == Ok::<(), BoundsError>(()) && final(self)@
                == sub_view_with(
                old(self)@,
                Field::BlockType.spec_index(),
                spec_section_index(pos),
                value as u64,
            ),
            !section_in_bounds(pos) ==> r == Err::<(), BoundsError>(BoundsError::OutOfBounds(pos))
                && final(self)@ == old(self)@,
    {
        proof {
            lemma_width_facts();
        }
        self.set_item(Field::BlockType, pos, value.to_u64())
    }

    /// Reads the sky-light level at an in-bounds position.
    pub fn sky_light(&self, pos: BlockPosition) -> (r: Result<u8, BoundsError>)
        requires
            self.inv(),
        ensures
            section_in_bounds(pos) ==> r is Ok && r.unwrap() == sub_field_items(
                self@,
                Field::SkyLight.spec_index(),
            )[spec_section_index(pos)],
            !section_in_bounds(pos) ==> r == Err::<u8, BoundsError>(BoundsError::OutOfBounds(pos)),
    {
        proof {
            self.lemma_inv_view();
            lemma_width_facts();
        }
        match self.item(Field::SkyLight, pos) {
            Ok(v) => Ok(u8::from_u64(v)),
            Err(e) => Err(e),
        }
    }

    /// Writes the sky-light level at an in-bounds position.
    pub fn set_sky_light(&mut self, pos: BlockPosition, value: u8) -> (r: Result<(), BoundsError>)
        requires
            old(self).inv(),
        ensures
            final(self).inv(),
            section_in_bounds(pos) ==> r == Ok::<(), BoundsError>(()) && final(self)@
                == sub_view_with(
                old(self)@,
                Field::SkyLight.spec_index(),
                spec_section_index(pos),
                value as u64,
            ),
            !section_in_bounds(pos) ==> r == Err::<(), BoundsError>(BoundsError::OutOfBounds(pos))
                && final(self)@ == old(self)@,
    {
        proof {
            lemma_width_facts();
        }
        self.set_item(Field::SkyLight, pos, value.to_u64())
    }

    /// Reads the block-light level at an in-bounds position.
    pub fn block_light(&self, pos: BlockPosition) -> (r: Result<u8, BoundsError>)
        requires
            self.inv(),
        ensures
            section_in_bounds(pos) ==> r is Ok && r.unwrap() == sub_field_items(
                self@,
                Field::BlockLight.spec_index(),
            )[spec_section_index(pos)],
            !section_in_bounds(pos) ==> r == Err::<u8, BoundsError>(BoundsError::OutOfBounds(pos)),
    {
        proof {
            self.lemma_inv_view();
            lemma_width_facts();
        }
        match self.item(Field::BlockLight, pos) {
            Ok(v) => Ok(u8::from_u64(v)),
            Err(e) => Err(e),
        }
    }

    /// Writes the block-light level at an in-bounds position.
    pub fn set_block_light(&mut self, pos: BlockPosition, value: u8) -> (r: Result<
        (),
        BoundsError,
    >)
        requires
            old(self).inv(),
        ensures
            final(self).inv(),
            section_in_bounds(pos) ==> r == Ok::<(), BoundsError>(()) && final(self)@
                == sub_view_with(
                old(self)@,
                Field::BlockLight.spec_index(),
                spec_section_index(pos),
                value as u64,
            ),
            !section_in_bounds(pos) ==> r == Err::<(), BoundsError>(BoundsError::OutOfBounds(pos))
                && final(self)@ == old(self)@,
    {
        proof {
            lemma_width_facts();
        }
        self.set_item(Field::BlockLight, pos, value.to_u64())
    }

    /// Reads the exposure flag at an in-bounds position.
    pub fn is_exposed(&self, pos: BlockPosition) -> (r: Result<bool, BoundsError>)
        requires
            self.inv(),
        ensures
            section_in_bounds(pos) ==> r is Ok && r.unwrap() == (sub_field_items(
                self@,
                Field::Exposed.spec_index(),
            )[spec_section_index(pos)] != 0),
            !section_in_bounds(pos) ==> r == Err::<bool, BoundsError>(
                BoundsError::OutOfBounds(pos),
            ),
    {
        proof {
            self.lemma_inv_view();
            lemma_width_facts();
        }
        match self.item(Field::Exposed, pos) {
            Ok(v) => Ok(bool::from_u64(v)),
            Err(e) => Err(e),
        }
    }

    /// Writes the exposure flag at an in-bounds position.
    pub fn set_is_exposed(&mut self, pos: BlockPosition, value: bool) -> (r: Result<
        (),
        BoundsError,
    >)
        requires
            old(self).inv(),
        ensures
            final(self).inv(),
            section_in_bounds(pos) ==> r == Ok::<(), BoundsError>(()) && final(self)@
                == sub_view_with(
                old(self)@,
                Field::Exposed.spec_index(),
                spec_section_index(pos),
                value.spec_to_u64(),
            ),
            !section_in_bounds(pos) ==> r == Err::<(), BoundsError>(BoundsError::OutOfBounds(pos))
                && final(self)@ == old(self)@,
    {
        proof {
            lemma_width_facts();
        }
        self.set_item(Field::Exposed, pos, value.to_u64())
    }
}

impl Default for Subchunk {
    /// The default subchunk has every field slot absent.
    fn default() -> (r: Subchunk)
        ensures
            r.inv(),
            r@.len() == NUM_FIELDS,
            sub_all_absent(r@),
    {
        Subchunk::new()
    }
}

} // verus!

//! The closed set of per-voxel fields, each with its own bit width and a
//! zero-valued default, and the codec between a field's natural value
//! type and the stored `u64` representation.

use vstd::prelude::*;

verus! {

/// Number of per-voxel fields.
pub const NUM_FIELDS: usize = 4;

/// One named per-voxel scalar channel.
#[derive(Clone, Copy, Debug, PartialEq, Eq, Structural)]
pub enum Field {
    /// The block-type tag of the voxel.
    BlockType,
    /// Light level reaching the voxel from the sky.
    SkyLight,
    /// Light level emitted by nearby blocks.
    BlockLight,
    /// Whether the voxel has at least one non-solid neighbour.
    Exposed,
}

impl Field {
    /// Index of this field in a subchunk's section table.
    pub open spec fn spec_index(self) -> int {
        match self {
            Field::BlockType => 0,
            Field::SkyLight => 1,
            Field::BlockLight => 2,
            Field::Exposed => 3,
        }
    }

    /// Returns the index of this field in a subchunk's section table.
    pub fn index(self) -> (r: usize)
        ensures
            r == self.spec_index(),
            r < NUM_FIELDS,
    {
        match self {
            Field::BlockType => 0,
            Field::SkyLight => 1,
            Field::BlockLight => 2,
            Field::Exposed => 3,
        }
    }

    /// Bit width with which this field's values are packed.
    pub open spec fn spec_bits(self) -> u64 {
        match self {
            Field::BlockType => 8,
            Field::SkyLight => 8,
            Field::BlockLight => 8,
            Field::Exposed => 1,
        }
    }

    /// Returns the bit width with which this field's values are packed.
    pub fn bits(self) -> (r: u64)
        ensures
            r == self.spec_bits(),
            1 <= r <= 8,
    {
        match self {
            Field::BlockType => 8,
            Field::SkyLight => 8,
            Field::BlockLight => 8,
            Field::Exposed => 1,
        }
    }
}

/// The numeric ranges the field widths carve out: an eight-bit field
/// stores values below 256, a one-bit field values below 2.
pub proof fn lemma_width_facts()
    ensures
        (1u64 << 8u64) == 256,
        (1u64 << 1u64) == 2,
{
    assert((1u64 << 8u64) == 256 && (1u64 << 1u64) == 2) by (bit_vector);
}

/// The field whose section-table index is `i`.
pub open spec fn spec_field_at(i: int) -> Field {
    if i == 0 {
        Field::BlockType
    } else if i == 1 {
        Field::SkyLight
    } else if i == 2 {
        Field::BlockLight
    } else {
        Field::Exposed
    }
}

/// Returns the field whose section-table index is `i`.
pub fn field_at(i: usize) -> (r: Field)
    requires
        i < NUM_FIELDS,
    ensures
        r == spec_field_at(i as int),
        r.spec_index() == i,
{
    if i == 0 {
        Field::BlockType
    } else if i == 1 {
        Field::SkyLight
    } else if i == 2 {
        Field::BlockLight
    } else {
        Field::Exposed
    }
}

/// Bit width of the field whose section-table index is `i`.
pub open spec fn spec_bits_at(i: int) -> u64 {
    spec_field_at(i).spec_bits()
}

/// A value type that one of the per-voxel fields can take: convertible
/// to and from the stored `u64` representation.
pub trait FieldType: Sized {
    /// The stored representation of this value.
    spec fn spec_to_u64(self) -> u64;

    /// The value read back from a stored representation.
    spec fn spec_from_u64(v: u64) -> Self;

    /// Converts this value to its stored representation.
    fn to_u64(self) -> (r: u64)
        ensures
            r == self.spec_to_u64(),
    ;

    /// Converts a stored representation back to a value.
    fn from_u64(v: u64) -> (r: Self)
        ensures
            r == Self::spec_from_u64(v),
    ;
}

impl FieldType for u8 {
    open spec fn spec_to_u64(self) -> u64 {
        self as u64
    }

    open spec fn spec_from_u64(v: u64) -> u8 {
        (v % 256) as u8
    }

    fn to_u64(self) -> (r: u64)
        ensures
            r == self.spec_to_u64(),
    {
        self as u64
    }

    fn from_u64(v: u64) -> (r: u8)
        ensures
            r == <u8 as FieldType>::spec_from_u64(v),
    {
        (v % 256) as u8
    }
}

impl FieldType for bool {
    open spec fn spec_to_u64(self) -> u64 {
        if self {
            1
        } else {
            0
        }
    }

    open spec fn spec_from_u64(v: u64) -> bool {
        v != 0
    }

    fn to_u64(self) -> (r: u64)
        ensures
            r == self.spec_to_u64(),
    {
        if self {
            1
        } else {
            0
        }
    }

    fn from_u64(v: u64) -> (r: bool)
        ensures
            r == <bool as FieldType>::spec_from_u64(v),
    {
        v != 0
    }
}

} // verus!

//! Static block definitions: one immutable record per block type, holding
//! five independent capability flags packed into a byte.

use vstd::prelude::*;

verus! {

const HOVERABLE_MASK: u8 = 0x01;

const VISIBLE_MASK: u8 = 0x02;

const BREAKABLE_MASK: u8 = 0x04;

const COLLIDABLE_MASK: u8 = 0x08;

const REPLACEABLE_MASK: u8 = 0x10;

/// Static capability flags of one block type.
///
/// Intended for lookup tables keyed by block-type tag, not for
/// individual voxels.
#[derive(Clone, Copy, Debug, PartialEq, Eq, Structural, Hash)]
pub struct Block {
    data: u8,
}

impl Block {
    /// Whether blocks of this type can be hovered over.
    pub closed spec fn spec_hoverable(self) -> bool {
        self.data & HOVERABLE_MASK != 0
    }

    /// Whether blocks of this type are rendered.
    pub closed spec fn spec_visible(self) -> bool {
        self.data & VISIBLE_MASK != 0
    }

    /// Whether blocks of this type can be broken.
    pub closed spec fn spec_breakable(self) -> bool {
        self.data & BREAKABLE_MASK != 0
    }

    /// Whether blocks of this type take part in collision.
    pub closed spec fn spec_collidable(self) -> bool {
        self.data & COLLIDABLE_MASK != 0
    }

    /// Whether blocks of this type may be overwritten by placement.
    pub closed spec fn spec_replaceable(self) -> bool {
        self.data & REPLACEABLE_MASK != 0
    }

    /// Creates a new block definition given all of its capabilities.
    pub fn new(
        is_hoverable: bool,
        is_visible: bool,
        is_breakable: bool,
        is_collidable: bool,
        is_replaceable: bool,
    ) -> (r: Block)
        ensures
            r.spec_hoverable() == is_hoverable,
            r.spec_visible() == is_visible,
            r.spec_breakable() == is_breakable,
            r.spec_collidable() == is_collidable,
            r.spec_replaceable() == is_replaceable,
    {
        let hb: u8 = if is_hoverable {
            1
        } else {
            0
        };
        let vb: u8 = if is_visible {
            1
        } else {
            0
        };
        let bb: u8 = if is_breakable {
            1
        } else {
            0
        };
        let cb: u8 = if is_collidable {
            1
        } else {
            0
        };
        let rb: u8 = if is_replaceable {
            1
        } else {
            0
        };
        let data: u8 = hb | (vb << 1u8) | (bb << 2u8) | (cb << 3u8) | (rb << 4u8);
        proof {
            assert((data & 0x01u8 != 0) == (hb == 1) && (data & 0x02u8 != 0) == (vb == 1) && (data
                & 0x04u8 != 0) == (bb == 1) && (data & 0x08u8 != 0) == (cb == 1) && (data & 0x10u8
                != 0) == (rb == 1)) by (bit_vector)
                requires
                    data == hb | (vb << 1u8) | (bb << 2u8) | (cb << 3u8) | (rb << 4u8),
                    hb == 0 || hb == 1,
                    vb == 0 || vb == 1,
                    bb == 0 || bb == 1,
                    cb == 0 || cb == 1,
                    rb == 0 || rb == 1,
            ;
        }
        Block { data }
    }

    /// The reserved definition used when a block-type tag is unknown or
    /// the configuration failed to load: visible and collidable, nothing
    /// else.
    pub closed spec fn spec_missing() -> Block {
        Block { data: 0x0A }
    }

    /// Returns the reserved fallback definition for unknown block types.
    pub fn missing() -> (r: Block)
        ensures
            r == Block::spec_missing(),
            !r.spec_hoverable(),
            r.spec_visible(),
            !r.spec_breakable(),
            r.spec_collidable(),
            !r.spec_replaceable(),
    {
        proof {
            assert((0x0Au8 & 0x01u8 == 0) && (0x0Au8 & 0x02u8 != 0) && (0x0Au8 & 0x04u8 == 0) && (
            0x0Au8 & 0x08u8 != 0) && (0x0Au8 & 0x10u8 == 0)) by (bit_vector);
        }
        Block { data: 0x0A }
    }

    /// Reads this block's capabilities as they would have been passed to
    /// `new`.
    pub fn is_hoverable(&self) -> (r: bool)
        ensures
            r == self.spec_hoverable(),
    {
        self.data & HOVERABLE_MASK != 0
    }

    /// Whether blocks of this type are rendered.
    pub fn is_visible(&self) -> (r: bool)
        ensures
            r == self.spec_visible(),
    {
        self.data & VISIBLE_MASK != 0
    }

    /// Whether blocks of this type can be broken.
    pub fn is_breakable(&self) -> (r: bool)
        ensures
            r == self.spec_breakable(),
    {
        self.data & BREAKABLE_MASK != 0
    }

    /// Whether blocks of this type take part in collision.
    pub fn is_collidable(&self) -> (r: bool)
        ensures
            r == self.spec_collidable(),
    {
        self.data & COLLIDABLE_MASK != 0
    }

    /// Whether blocks of this type may be overwritten by placement.
    pub fn is_replaceable(&self) -> (r: bool)
        ensures
            r == self.spec_replaceable(),
    {
        self.data & REPLACEABLE_MASK != 0
    }
}

impl Default for Block {
    /// The default block definition is the reserved fallback.
    fn default() -> (r: Block)
        ensures
            r == Block::spec_missing(),
    {
        Block::missing()
    }
}

/// Looks a block-type tag up in a definition table; a tag with no entry
/// maps to the reserved fallback definition, never to a panic.
pub fn block_definition(table: &Vec<Block>, id: u8) -> (r: Block)
    ensures
        (id as int) < table@.len() ==> r == table@[id as int],
        (id as int) >= table@.len() ==> r == Block::spec_missing(),
{
    if (id as usize) < table.len() {
        table[id as usize]
    } else {
        Block::missing()
    }
}

} // verus!

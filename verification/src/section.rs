//! A section: a dense, fixed-width, bit-packed array of one field's
//! values over one subchunk volume.
//!
//! A section is constructed with a bit width between 1 and 8; values are
//! packed into 64-bit words, no value straddling a word boundary. A
//! section is empty exactly when every stored value is zero.

use vstd::prelude::*;
use vstd::arithmetic::div_mod::{
    lemma_div_is_ordered, lemma_div_is_ordered_by_denominator, lemma_div_plus_one,
    lemma_div_pos_is_pos,
    lemma_fundamental_div_mod, lemma_fundamental_div_mod_converse,
    lemma_mod_division_less_than_divisor,
};
use vstd::arithmetic::mul::lemma_mul_inequality;
use crate::coords::BlockPosition;
use crate::error::BoundsError;
use crate::{CHUNK_HEIGHT, CHUNK_WIDTH, SUBCHUNK_DEPTH};

verus! {

/// Number of values one section stores: one per position of a subchunk
/// volume.
pub const SECTION_VOLUME: usize = CHUNK_WIDTH * CHUNK_HEIGHT * SUBCHUNK_DEPTH;

/// How many values of width `bits` fit in one 64-bit word.
pub open spec fn items_per_word(bits: u64) -> int {
    64int / bits as int
}

/// How many words a section of width `bits` needs.
pub open spec fn num_words(bits: u64) -> int {
    (SECTION_VOLUME + items_per_word(bits) - 1) / items_per_word(bits)
}

/// The mask selecting the low `bits` bits of a word.
pub open spec fn width_mask(bits: u64) -> u64 {
    !(0xffff_ffff_ffff_ffffu64 << bits)
}

/// The value of width `bits` stored at bit offset `shift` of word `w`.
pub open spec fn slot_value(w: u64, shift: u64, bits: u64) -> u64 {
    (w >> shift) & width_mask(bits)
}

/// Word `w` with the value of width `bits` at bit offset `shift`
/// replaced by `v`.
pub open spec fn word_with_slot(w: u64, v: u64, shift: u64, bits: u64) -> u64 {
    (w & !(width_mask(bits) << shift)) | (v << shift)
}

/// The bit offset of value `i` inside its word, for width `bits`.
pub open spec fn slot_shift(bits: u64, i: int) -> u64 {
    (bits as int * (i % items_per_word(bits))) as u64
}

/// The sequence of values held by packed words `words` of width `bits`.
pub open spec fn unpack_words(words: Seq<u64>, bits: u64) -> Seq<u64> {
    Seq::new(
        SECTION_VOLUME as nat,
        |i: int| slot_value(words[i / items_per_word(bits)], slot_shift(bits, i), bits),
    )
}

/// Whether every value of a sequence is zero.
pub open spec fn all_zero(items: Seq<u64>) -> bool {
    forall|i: int| 0 <= i < items.len() ==> items[i] == 0
}

/// Whether a position lies inside the subchunk volume.
pub open spec fn section_in_bounds(pos: BlockPosition) -> bool {
    &&& 0 <= pos.x < CHUNK_WIDTH
    &&& 0 <= pos.y < CHUNK_HEIGHT
    &&& 0 <= pos.z < SUBCHUNK_DEPTH
}

/// The linear index of an in-bounds position: `x` outermost, then `y`,
/// then `z` innermost.
pub open spec fn spec_section_index(pos: BlockPosition) -> int {
    pos.x * (CHUNK_HEIGHT * SUBCHUNK_DEPTH) + pos.y * SUBCHUNK_DEPTH + pos.z
}

/// Computes the linear index of an in-bounds position.
pub fn section_index(pos: BlockPosition) -> (r: usize)
    requires
        section_in_bounds(pos),
    ensures
        r == spec_section_index(pos),
        r < SECTION_VOLUME,
{
    (pos.x as usize) * (CHUNK_HEIGHT * SUBCHUNK_DEPTH) + (pos.y as usize) * SUBCHUNK_DEPTH + (
    pos.z as usize)
}

/// Extracting a slot of width `bits` never yields a value of `bits` or
/// more bits.
proof fn lemma_slot_fits(w: u64, shift: u64, bits: u64)
    by (bit_vector)
    requires
        1 <= bits <= 8,
    ensures
        slot_value(w, shift, bits) < (1u64 << bits),
{
}

/// Every slot of the zero word holds zero.
proof fn lemma_slot_of_zero(shift: u64, bits: u64)
    by (bit_vector)
    requires
        1 <= bits <= 8,
    ensures
        slot_value(0u64, shift, bits) == 0,
{
}

/// Writing a slot stores exactly the written value in that slot.
proof fn lemma_set_slot_same(w: u64, v: u64, shift: u64, bits: u64)
    by (bit_vector)
    requires
        1 <= bits <= 8,
        shift + bits <= 64,
        v < (1u64 << bits),
    ensures
        slot_value(word_with_slot(w, v, shift, bits), shift, bits) == v,
{
}

/// Writing a slot leaves every disjoint slot of the word unchanged.
proof fn lemma_set_slot_other(w: u64, v: u64, shift: u64, shift2: u64, bits: u64)
    by (bit_vector)
    requires
        1 <= bits <= 8,
        shift + bits <= 64,
        shift2 + bits <= 64,
        shift2 + bits <= shift || shift + bits <= shift2,
        v < (1u64 << bits),
    ensures
        slot_value(word_with_slot(w, v, shift, bits), shift2, bits) == slot_value(
            w,
            shift2,
            bits,
        ),
{
}

/// Arithmetic facts about the packed layout for a valid width: word
/// count and per-word capacity are positive, a value's word index is in
/// range, and its bit offset leaves room for the value before the word
/// ends.
proof fn lemma_layout(bits: u64, i: int)
    requires
        1 <= bits <= 8,
        0 <= i < SECTION_VOLUME,
    ensures
        8 <= items_per_word(bits) <= 64,
        0 <= i / items_per_word(bits) < num_words(bits),
        i % items_per_word(bits) == i - items_per_word(bits) * (i / items_per_word(bits)),
        0 <= i % items_per_word(bits) < items_per_word(bits),
        slot_shift(bits, i) == bits as int * (i % items_per_word(bits)),
        slot_shift(bits, i) + bits <= 64,
{
    let b = bits as int;
    let ipw = items_per_word(bits);
    assert(8 <= ipw <= 64) by {
        lemma_fundamental_div_mod(64int, b);
        lemma_mod_division_less_than_divisor(64int, b);
        if ipw <= 7 {
            assert(b * ipw <= b * 7) by (nonlinear_arith)
                requires
                    0 < b,
                    ipw <= 7,
            ;
        }
        if ipw >= 65 {
            assert(b * ipw >= b * 65) by (nonlinear_arith)
                requires
                    0 < b,
                    ipw >= 65,
            ;
        }
    }
    lemma_fundamental_div_mod(i, ipw);
    lemma_mod_division_less_than_divisor(i, ipw);
    assert(0 <= i / ipw) by {
        vstd::arithmetic::div_mod::lemma_div_pos_is_pos(i, ipw);
    }
    assert(i / ipw < num_words(bits)) by {
        lemma_div_is_ordered(i, SECTION_VOLUME - 1, ipw);
        lemma_div_plus_one(SECTION_VOLUME - 1, ipw);
        assert(num_words(bits) == (SECTION_VOLUME - 1 + ipw) / ipw);
    }
    let k = i % ipw;
    assert(bits as int * k <= bits as int * (ipw - 1)) by {
        lemma_mul_inequality(k, ipw - 1, b);
    }
    assert(b * (ipw - 1) == b * ipw - b) by (nonlinear_arith);
    assert(b * ipw <= 64) by {
        lemma_fundamental_div_mod(64int, b);
        lemma_mod_division_less_than_divisor(64int, b);
    }
    assert(0 <= b * k) by (nonlinear_arith)
        requires
            0 <= k,
            0 < b,
    ;
}


/// How many values the packed layout places in word `wi`: a full word's
/// worth, except for a shorter final word.
pub open spec fn word_count(bits: u64, wi: int) -> int {
    if (wi + 1) * items_per_word(bits) <= SECTION_VOLUME {
        items_per_word(bits)
    } else {
        SECTION_VOLUME - wi * items_per_word(bits)
    }
}

/// The word packing `count` values of width `bits` from `items`,
/// starting at `base`, into their slots.
pub open spec fn pack_word(items: Seq<u64>, bits: u64, base: int, count: int) -> u64
    decreases count,
{
    if count <= 0 {
        0u64
    } else {
        pack_word(items, bits, base, count - 1) | (items[base + count - 1] << (((count - 1)
            * bits as int) as u64))
    }
}

/// The canonical packed words of a full value sequence.
pub open spec fn pack_words(items: Seq<u64>, bits: u64) -> Seq<u64> {
    Seq::new(
        num_words(bits) as nat,
        |wi: int| pack_word(items, bits, wi * items_per_word(bits), word_count(bits, wi)),
    )
}

/// Merging a value into an empty slot stores exactly that value there.
proof fn lemma_or_slot_same(w: u64, v: u64, shift: u64, bits: u64)
    by (bit_vector)
    requires
        1 <= bits <= 8,
        shift + bits <= 64,
        v < (1u64 << bits),
        slot_value(w, shift, bits) == 0,
    ensures
        slot_value(w | (v << shift), shift, bits) == v,
{
}

/// Merging a value into one slot leaves every disjoint slot unchanged.
proof fn lemma_or_slot_other(w: u64, v: u64, shift: u64, shift2: u64, bits: u64)
    by (bit_vector)
    requires
        1 <= bits <= 8,
        shift + bits <= 64,
        shift2 + bits <= 64,
        shift2 + bits <= shift || shift + bits <= shift2,
        v < (1u64 << bits),
    ensures
        slot_value(w | (v << shift), shift2, bits) == slot_value(w, shift2, bits),
{
}

/// A valid width needs at least one word and at most one per value.
pub proof fn lemma_num_words_pos(bits: u64)
    requires
        1 <= bits <= 8,
    ensures
        8 <= items_per_word(bits) <= 64,
        1 <= num_words(bits) <= SECTION_VOLUME,
{
    let ipw = items_per_word(bits);
    assert(8 <= ipw <= 64) by {
        lemma_layout(bits, 0);
    }
    assert(num_words(bits) == (SECTION_VOLUME - 1) / ipw + 1) by {
        lemma_div_plus_one(SECTION_VOLUME - 1, ipw);
    }
    lemma_div_pos_is_pos(SECTION_VOLUME - 1, ipw);
    lemma_div_is_ordered_by_denominator(SECTION_VOLUME - 1, 8, ipw);
}

/// Arithmetic facts about word `wi` of the packed layout.
pub(crate) proof fn lemma_word_meta(bits: u64, wi: int)
    requires
        1 <= bits <= 8,
        0 <= wi < num_words(bits),
    ensures
        8 <= items_per_word(bits) <= 64,
        1 <= num_words(bits) <= SECTION_VOLUME,
        1 <= word_count(bits, wi) <= items_per_word(bits),
        0 <= wi * items_per_word(bits),
        wi * items_per_word(bits) + word_count(bits, wi) <= SECTION_VOLUME,
{
    let b = bits as int;
    let ipw = items_per_word(bits);
    assert(8 <= ipw <= 64) by {
        lemma_layout(bits, 0);
    }
    assert(num_words(bits) == (SECTION_VOLUME - 1) / ipw + 1) by {
        lemma_div_plus_one(SECTION_VOLUME - 1, ipw);
    }
    assert(1 <= num_words(bits) <= SECTION_VOLUME) by {
        lemma_div_pos_is_pos(SECTION_VOLUME - 1, ipw);
        lemma_div_is_ordered_by_denominator(SECTION_VOLUME - 1, 8, ipw);
    }
    assert(0 <= wi * ipw) by (nonlinear_arith)
        requires
            0 <= wi,
            0 < ipw,
    ;
    assert(wi * ipw <= ((SECTION_VOLUME - 1) / ipw) * ipw) by {
        lemma_mul_inequality(wi, (SECTION_VOLUME - 1) / ipw, ipw);
    }
    assert(((SECTION_VOLUME - 1) / ipw) * ipw <= SECTION_VOLUME - 1) by {
        lemma_fundamental_div_mod(SECTION_VOLUME - 1, ipw);
        lemma_mod_division_less_than_divisor(SECTION_VOLUME - 1, ipw);
        assert(ipw * ((SECTION_VOLUME - 1) / ipw) == ((SECTION_VOLUME - 1) / ipw) * ipw)
            by (nonlinear_arith);
    }
    assert(wi * ipw + word_count(bits, wi) <= SECTION_VOLUME) by {
        if (wi + 1) * ipw <= SECTION_VOLUME {
            assert((wi + 1) * ipw == wi * ipw + ipw) by (nonlinear_arith);
        }
    }
    assert(1 <= word_count(bits, wi) <= ipw) by {
        if !((wi + 1) * ipw <= SECTION_VOLUME) {
            assert((wi + 1) * ipw == wi * ipw + ipw) by (nonlinear_arith);
        }
    }
}

/// Arithmetic facts about word `wi` of the packed layout and value `j`
/// inside it.
proof fn lemma_word_layout(bits: u64, wi: int, j: int)
    requires
        1 <= bits <= 8,
        0 <= wi < num_words(bits),
        0 <= j < word_count(bits, wi),
    ensures
        8 <= items_per_word(bits) <= 64,
        1 <= num_words(bits) <= SECTION_VOLUME,
        1 <= word_count(bits, wi) <= items_per_word(bits),
        0 <= wi * items_per_word(bits),
        wi * items_per_word(bits) + word_count(bits, wi) <= SECTION_VOLUME,
        0 <= wi * items_per_word(bits) + j < SECTION_VOLUME,
        (wi * items_per_word(bits) + j) / items_per_word(bits) == wi,
        (wi * items_per_word(bits) + j) % items_per_word(bits) == j,
        slot_shift(bits, wi * items_per_word(bits) + j) == (j * bits as int) as u64,
        j * bits as int + bits as int <= 64,
        0 <= j * bits as int,
{
    lemma_word_meta(bits, wi);
    let b = bits as int;
    let ipw = items_per_word(bits);
    let base = wi * ipw;
    let i = base + j;
    lemma_fundamental_div_mod_converse(i, ipw, wi, j);
    assert(i / ipw == wi && i % ipw == j);
    assert(b * j == j * b) by (nonlinear_arith);
    assert(slot_shift(bits, i) == (j * b) as u64);
    assert(j * b <= (ipw - 1) * b) by {
        lemma_mul_inequality(j, ipw - 1, b);
    }
    assert((ipw - 1) * b == ipw * b - b) by (nonlinear_arith);
    assert(ipw * b <= 64) by {
        lemma_fundamental_div_mod(64int, b);
        lemma_mod_division_less_than_divisor(64int, b);
        assert(ipw * b == b * ipw) by (nonlinear_arith);
    }
    assert(0 <= j * b) by (nonlinear_arith)
        requires
            0 <= j,
            0 < b,
    ;
}

/// The slots of a packed word: the first `count` hold their values, the
/// rest hold zero.
proof fn lemma_pack_word_slots(items: Seq<u64>, bits: u64, wi: int, count: int)
    requires
        1 <= bits <= 8,
        0 <= wi < num_words(bits),
        0 <= count <= word_count(bits, wi),
        items.len() == SECTION_VOLUME,
        forall|k: int| 0 <= k < SECTION_VOLUME ==> #[trigger] items[k] < (1u64 << bits),
    ensures
        forall|j: int|
            0 <= j < count ==> slot_value(
                pack_word(items, bits, wi * items_per_word(bits), count),
                #[trigger] ((j * bits as int) as u64),
                bits,
            ) == items[wi * items_per_word(bits) + j],
        forall|j: int|
            count <= j < items_per_word(bits) ==> slot_value(
                pack_word(items, bits, wi * items_per_word(bits), count),
                #[trigger] ((j * bits as int) as u64),
                bits,
            ) == 0,
    decreases count,
{
    let b = bits as int;
    let ipw = items_per_word(bits);
    let base = wi * ipw;
    if count <= 0 {
        assert forall|j: int| 0 <= j < ipw implies slot_value(
            pack_word(items, bits, base, 0),
            #[trigger] ((j * b) as u64),
            bits,
        ) == 0 by {
            lemma_slot_of_zero((j * b) as u64, bits);
        }
    } else {
        lemma_pack_word_slots(items, bits, wi, count - 1);
        let w = pack_word(items, bits, base, count - 1);
        let v = items[base + count - 1];
        let s = (((count - 1) * b) as u64);
        lemma_word_layout(bits, wi, count - 1);
        assert(pack_word(items, bits, base, count) == w | (v << s));
        assert forall|j: int| 0 <= j < ipw implies slot_value(
            w | (v << s),
            #[trigger] ((j * b) as u64),
            bits,
        ) == (if j < count {
            items[base + j]
        } else {
            0u64
        }) by {
            lemma_word_layout(bits, wi, count - 1);
            if j == count - 1 {
                lemma_or_slot_same(w, v, s, bits);
            } else {
                let s2 = ((j * b) as u64);
                if 0 <= j < word_count(bits, wi) {
                    lemma_word_layout(bits, wi, j);
                } else {
                    assert(j * b <= (ipw - 1) * b) by {
                        lemma_mul_inequality(j, ipw - 1, b);
                    }
                    assert((ipw - 1) * b == ipw * b - b) by (nonlinear_arith);
                    assert(ipw * b <= 64) by {
                        lemma_fundamental_div_mod(64int, b);
                        lemma_mod_division_less_than_divisor(64int, b);
                        assert(ipw * b == b * ipw) by (nonlinear_arith);
                    }
                    assert(0 <= j * b) by (nonlinear_arith)
                        requires
                            0 <= j,
                            0 < b,
                    ;
                }
                if j < count - 1 {
                    assert((j + 1) * b <= (count - 1) * b) by {
                        lemma_mul_inequality(j + 1, count - 1, b);
                    }
                    assert((j + 1) * b == j * b + b) by (nonlinear_arith);
                } else {
                    assert((count - 1 + 1) * b <= j * b) by {
                        lemma_mul_inequality(count, j, b);
                    }
                    assert((count - 1 + 1) * b == (count - 1) * b + b) by (nonlinear_arith);
                }
                lemma_or_slot_other(w, v, s, s2, bits);
            }
        }
    }
}

/// Unpacking the canonical packing of a fitting value sequence gives the
/// sequence back.
pub proof fn lemma_unpack_pack(items: Seq<u64>, bits: u64)
    requires
        1 <= bits <= 8,
        items.len() == SECTION_VOLUME,
        forall|k: int| 0 <= k < SECTION_VOLUME ==> #[trigger] items[k] < (1u64 << bits),
    ensures
        unpack_words(pack_words(items, bits), bits) == items,
{
    let ipw = items_per_word(bits);
    let unpacked = unpack_words(pack_words(items, bits), bits);
    assert forall|i: int| 0 <= i < SECTION_VOLUME implies #[trigger] unpacked[i] == items[i] by {
        lemma_layout(bits, i);
        let wi = i / ipw;
        let j = i % ipw;
        assert(word_count(bits, wi) <= ipw && wi * ipw + word_count(bits, wi) <= SECTION_VOLUME
            && 1 <= word_count(bits, wi)) by {
            lemma_word_layout(bits, wi, 0);
        }
        assert(j < word_count(bits, wi)) by {
            if (wi + 1) * ipw <= SECTION_VOLUME {
            } else {
                assert(i == ipw * wi + j);
            }
        }
        lemma_pack_word_slots(items, bits, wi, word_count(bits, wi));
        assert(slot_shift(bits, i) == ((j * bits as int) as u64));
        assert(unpacked[i] == slot_value(
            pack_words(items, bits)[wi],
            slot_shift(bits, i),
            bits,
        ));
    }
    assert(unpacked =~= items);
}

/// A dense fixed-width packed array of one field's values over one
/// subchunk volume.
pub struct Section {
    bits: u64,
    data: Vec<u64>,
}

impl View for Section {
    type V = Seq<u64>;

    closed spec fn view(&self) -> Seq<u64> {
        unpack_words(self.data@, self.bits)
    }
}

impl Section {
    /// The bit width this section was constructed with.
    pub closed spec fn spec_bits(self) -> u64 {
        self.bits
    }

    /// Structural well-formedness: a valid width and exactly the words
    /// the packed layout needs.
    pub closed spec fn wf(self) -> bool {
        &&& 1 <= self.bits <= 8
        &&& self.data@.len() == num_words(self.bits)
    }

    /// A well-formed section holds one value per subchunk position, each
    /// within its width.
    pub proof fn lemma_view(self)
        requires
            self.wf(),
        ensures
            self@.len() == SECTION_VOLUME,
            forall|i: int|
                0 <= i < SECTION_VOLUME ==> #[trigger] self@[i] < (1u64 << self.spec_bits()),
    {
        assert forall|i: int| 0 <= i < SECTION_VOLUME implies #[trigger] self@[i] < (1u64
            << self.spec_bits()) by {
            lemma_layout(self.bits, i);
            lemma_slot_fits(self.data@[i / items_per_word(self.bits)], slot_shift(self.bits, i), self.bits);
        }
    }

    /// Returns the bit width this section was constructed with.
    pub fn bits(&self) -> (r: u64)
        ensures
            r == self.spec_bits(),
    {
        self.bits
    }

    /// Creates a section of width `bits` holding the default value zero
    /// at every position.
    pub fn new(bits: u64) -> (r: Section)
        requires
            1 <= bits <= 8,
        ensures
            r.wf(),
            r.spec_bits() == bits,
            r@.len() == SECTION_VOLUME,
            all_zero(r@),
    {
        let ipw = 64u64 / bits;
        proof {
            lemma_layout(bits, 0);
        }
        let nwords = ((SECTION_VOLUME as u64) + ipw - 1) / ipw;
        let mut data: Vec<u64> = Vec::new();
        let mut w: u64 = 0;
        while w < nwords
            invariant
                data@.len() == w,
                w <= nwords,
                forall|j: int| 0 <= j < data@.len() ==> data@[j] == 0,
            decreases nwords - w,
        {
            data.push(0u64);
            w = w + 1;
        }
        let r = Section { bits, data };
        proof {
            assert(nwords == num_words(bits));
            assert forall|i: int| 0 <= i < SECTION_VOLUME implies #[trigger] r@[i] == 0 by {
                lemma_layout(bits, i);
                lemma_slot_of_zero(slot_shift(bits, i), bits);
            }
        }
        r
    }


    /// The canonical packed words of this section's values, as the
    /// persistence format stores them.
    pub fn packed_words(&self) -> (r: Vec<u64>)
        requires
            self.wf(),
        ensures
            r@ == pack_words(self@, self.spec_bits()),
            r@.len() == num_words(self.spec_bits()),
    {
        proof {
            self.lemma_view();
            lemma_layout(self.bits, 0);
            lemma_word_meta(self.bits, 0);
        }
        let bits = self.bits;
        let ipw = (64u64 / bits) as usize;
        let nwords = (SECTION_VOLUME + ipw - 1) / ipw;
        let mut out: Vec<u64> = Vec::new();
        let mut wi: usize = 0;
        while wi < nwords
            invariant
                self.wf(),
                bits == self.spec_bits(),
                ipw == items_per_word(bits),
                nwords == num_words(bits),
                wi <= nwords,
                out@.len() == wi,
                forall|w: int| 0 <= w < wi ==> out@[w] == pack_words(self@, bits)[w],
            decreases nwords - wi,
        {
            proof {
                lemma_word_meta(bits, wi as int);
            }
            let base = wi * ipw;
            let count = if base + ipw <= SECTION_VOLUME {
                ipw
            } else {
                SECTION_VOLUME - base
            };
            proof {
                assert((wi as int + 1) * (ipw as int) == wi as int * ipw as int + ipw as int)
                    by (nonlinear_arith);
                assert(count == word_count(bits, wi as int));
            }
            let mut w: u64 = 0;
            let mut j: usize = 0;
            while j < count
                invariant
                    self.wf(),
                    bits == self.spec_bits(),
                    ipw == items_per_word(bits),
                    wi < num_words(bits),
                    base == wi as int * ipw as int,
                    count == word_count(bits, wi as int),
                    j <= count,
                    w == pack_word(self@, bits, base as int, j as int),
                decreases count - j,
            {
                proof {
                    lemma_word_layout(bits, wi as int, j as int);
                }
                let v = self.item_at_index(base + j);
                w = w | (v << (bits * (j as u64)));
                j = j + 1;
            }
            out.push(w);
            wi = wi + 1;
        }
        proof {
            assert(out@ =~= pack_words(self@, bits));
        }
        out
    }

    /// Rebuilds a section of width `bits` from packed words, as read
    /// back from the persistence format.
    pub fn from_words(bits: u64, words: Vec<u64>) -> (r: Section)
        requires
            1 <= bits <= 8,
            words@.len() == num_words(bits),
        ensures
            r.wf(),
            r.spec_bits() == bits,
            r@ == unpack_words(words@, bits),
    {
        Section { bits, data: words }
    }

    /// Reads the value at linear index `idx`.
    pub fn item_at_index(&self, idx: usize) -> (r: u64)
        requires
            self.wf(),
            idx < SECTION_VOLUME,
        ensures
            r == self@[idx as int],
    {
        proof {
            lemma_layout(self.bits, idx as int);
        }
        let ipw = 64u64 / self.bits;
        let wi = ((idx as u64) / ipw) as usize;
        let shift = self.bits * ((idx as u64) % ipw);
        let w = self.data[wi];
        (w >> shift) & !(0xffff_ffff_ffff_ffffu64 << self.bits)
    }

    /// Writes `value` at linear index `idx`.
    pub fn set_item_at_index(&mut self, idx: usize, value: u64)
        requires
            old(self).wf(),
            idx < SECTION_VOLUME,
            value < (1u64 << old(self).spec_bits()),
        ensures
            final(self).wf(),
            final(self).spec_bits() == old(self).spec_bits(),
            final(self)@ == old(self)@.update(idx as int, value),
    {
        proof {
            lemma_layout(self.bits, idx as int);
        }
        let ipw = 64u64 / self.bits;
        let wi = ((idx as u64) / ipw) as usize;
        let shift = self.bits * ((idx as u64) % ipw);
        let mask = !(0xffff_ffff_ffff_ffffu64 << self.bits);
        let w = self.data[wi];
        let new_w = (w & !(mask << shift)) | (value << shift);
        let ghost old_self = *self;
        self.data.set(wi, new_w);
        proof {
            let bits = self.bits;
            let ghost_ipw = items_per_word(bits);
            assert(new_w == word_with_slot(w, value, slot_shift(bits, idx as int), bits));
            assert forall|i: int| 0 <= i < SECTION_VOLUME implies #[trigger] self@[i]
                == old_self@.update(idx as int, value)[i] by {
                lemma_layout(bits, i);
                let s_i = slot_shift(bits, i);
                let s_idx = slot_shift(bits, idx as int);
                if i / ghost_ipw == idx as int / ghost_ipw {
                    if i == idx as int {
                        lemma_set_slot_same(w, value, s_idx, bits);
                    } else {
                        let ki = i % ghost_ipw;
                        let kx = idx as int % ghost_ipw;
                        assert(ki != kx);
                        if ki < kx {
                            lemma_mul_inequality(ki + 1, kx, bits as int);
                            assert(bits as int * (ki + 1) == bits as int * ki + bits) by (nonlinear_arith);
                        } else {
                            lemma_mul_inequality(kx + 1, ki, bits as int);
                            assert(bits as int * (kx + 1) == bits as int * kx + bits) by (nonlinear_arith);
                        }
                        lemma_set_slot_other(w, value, s_idx, s_i, bits);
                    }
                } else {
                    assert(self.data@[i / ghost_ipw] == old_self.data@[i / ghost_ipw]);
                }
            }
            assert(self@ =~= old_self@.update(idx as int, value));
        }
    }

    /// Reads the decoded value at an in-bounds position, or reports a
    /// bounds error for a position outside the subchunk volume.
    pub fn item(&self, pos: BlockPosition) -> (r: Result<u64, BoundsError>)
        requires
            self.wf(),
        ensures
            section_in_bounds(pos) ==> r == Ok::<u64, BoundsError>(
                self@[spec_section_index(pos)],
            ),
            !section_in_bounds(pos) ==> r == Err::<u64, BoundsError>(
                BoundsError::OutOfBounds(pos),
            ),
    {
        if pos.x < 0 || pos.x >= CHUNK_WIDTH as i32 || pos.y < 0 || pos.y >= CHUNK_HEIGHT as i32
            || pos.z < 0 || pos.z >= SUBCHUNK_DEPTH as i32 {
            return Err(BoundsError::OutOfBounds(pos));
        }
        Ok(self.item_at_index(section_index(pos)))
    }

    /// Stores a value, which must fit in this section's width, at an
    /// in-bounds position; reports a bounds error, changing nothing, for
    /// a position outside the subchunk volume.
    pub fn set_item(&mut self, pos: BlockPosition, value: u64) -> (r: Result<(), BoundsError>)
        requires
            old(self).wf(),
            value < (1u64 << old(self).spec_bits()),
        ensures
            final(self).wf(),
            final(self).spec_bits() == old(self).spec_bits(),
            section_in_bounds(pos) ==> r == Ok::<(), BoundsError>(()) && final(self)@ == old(
                self,
            )@.update(spec_section_index(pos), value),
            !section_in_bounds(pos) ==> r == Err::<(), BoundsError>(BoundsError::OutOfBounds(pos))
                && *final(self) == *old(self),
    {
        if pos.x < 0 || pos.x >= CHUNK_WIDTH as i32 || pos.y < 0 || pos.y >= CHUNK_HEIGHT as i32
            || pos.z < 0 || pos.z >= SUBCHUNK_DEPTH as i32 {
            return Err(BoundsError::OutOfBounds(pos));
        }
        self.set_item_at_index(section_index(pos), value);
        Ok(())
    }

    /// Returns true exactly when every stored value is zero.
    pub fn is_empty(&self) -> (r: bool)
        requires
            self.wf(),
        ensures
            r == all_zero(self@),
    {
        proof {
            self.lemma_view();
        }
        let mut idx: usize = 0;
        while idx < SECTION_VOLUME
            invariant
                self.wf(),
                idx <= SECTION_VOLUME,
                self@.len() == SECTION_VOLUME,
                forall|j: int| 0 <= j < idx ==> self@[j] == 0,
            decreases SECTION_VOLUME - idx,
        {
            if self.item_at_index(idx) != 0 {
                return false;
            }
            idx = idx + 1;
        }
        true
    }
}

} // verus!

//! The persisted chunk format: a length-implicit binary encoding of a
//! chunk's subchunk array.
//!
//! Each subchunk slot is tagged present or absent; a present subchunk
//! encodes each field's tagged optional section; a present section
//! encodes its packed bit buffer, word by word, little-endian. Decoding
//! rejects truncated or malformed streams and never yields a partially
//! populated chunk.

use vstd::prelude::*;
use crate::chunk::{chunk_view_wf, Chunk, ChunkView};
use crate::error::DecodeError;
use crate::field::{field_at, spec_bits_at, NUM_FIELDS};
use crate::section::{all_zero, num_words, pack_words, unpack_words, Section};
use crate::subchunk::{sub_all_absent, sub_view_wf, Subchunk, SubchunkView};
use crate::NUM_SUBCHUNKS;

verus! {

/// The eight little-endian bytes of one packed word.
pub open spec fn enc_u64le(w: u64) -> Seq<u8> {
    seq![
        (w & 0xff) as u8,
        ((w >> 8) & 0xff) as u8,
        ((w >> 16) & 0xff) as u8,
        ((w >> 24) & 0xff) as u8,
        ((w >> 32) & 0xff) as u8,
        ((w >> 40) & 0xff) as u8,
        ((w >> 48) & 0xff) as u8,
        ((w >> 56) & 0xff) as u8,
    ]
}

/// The bytes of a run of packed words.
pub open spec fn enc_words(ws: Seq<u64>) -> Seq<u8>
    decreases ws.len(),
{
    if ws.len() == 0 {
        Seq::empty()
    } else {
        enc_u64le(ws[0]) + enc_words(ws.drop_first())
    }
}

/// The bytes of one present section: its packed bit buffer.
pub open spec fn enc_section(items: Seq<u64>, bits: u64) -> Seq<u8> {
    enc_words(pack_words(items, bits))
}

/// The bytes of a subchunk's field slots from `fi` on: a tag byte per
/// slot, a present slot followed by its section.
pub open spec fn enc_sub_slots(sv: SubchunkView, fi: int) -> Seq<u8>
    decreases NUM_FIELDS - fi,
{
    if fi < 0 || fi >= NUM_FIELDS {
        Seq::empty()
    } else {
        (match sv[fi] {
            None => seq![0u8],
            Some(items) => seq![1u8] + enc_section(items, spec_bits_at(fi)),
        }) + enc_sub_slots(sv, fi + 1)
    }
}

/// The bytes of one present subchunk.
pub open spec fn enc_subchunk(sv: SubchunkView) -> Seq<u8> {
    enc_sub_slots(sv, 0)
}

/// The bytes of a chunk's subchunk slots from `si` on.
pub open spec fn enc_chunk_slots(v: ChunkView, si: int) -> Seq<u8>
    decreases NUM_SUBCHUNKS - si,
{
    if si < 0 || si >= NUM_SUBCHUNKS {
        Seq::empty()
    } else {
        (match v[si] {
            None => seq![0u8],
            Some(sv) => seq![1u8] + enc_subchunk(sv),
        }) + enc_chunk_slots(v, si + 1)
    }
}

/// The persisted bytes of a whole chunk.
pub open spec fn spec_encode_chunk(v: ChunkView) -> Seq<u8> {
    enc_chunk_slots(v, 0)
}

/// Reads one little-endian word at `at`, if eight bytes remain.
pub open spec fn dec_u64le(bytes: Seq<u8>, at: int) -> Option<(u64, int)> {
    if 0 <= at && at + 8 <= bytes.len() {
        Some(
            (
                (bytes[at] as u64) | ((bytes[at + 1] as u64) << 8) | ((bytes[at + 2] as u64) << 16)
                    | ((bytes[at + 3] as u64) << 24) | ((bytes[at + 4] as u64) << 32) | ((bytes[at
                    + 5] as u64) << 40) | ((bytes[at + 6] as u64) << 48) | ((bytes[at + 7] as u64)
                    << 56),
                at + 8,
            ),
        )
    } else {
        None
    }
}

/// Reads `n` packed words at `at`.
pub open spec fn dec_words(bytes: Seq<u8>, at: int, n: int) -> Option<(Seq<u64>, int)>
    decreases n,
{
    if n <= 0 {
        Some((Seq::empty(), at))
    } else {
        match dec_u64le(bytes, at) {
            None => None,
            Some((w, at2)) => match dec_words(bytes, at2, n - 1) {
                None => None,
                Some((ws, at3)) => Some((seq![w] + ws, at3)),
            },
        }
    }
}

/// Reads one section of width `bits` at `at`: its packed words,
/// unpacked; a uniformly default section is rejected as malformed,
/// since the encoder only writes resident, non-default sections.
pub open spec fn dec_section(bytes: Seq<u8>, at: int, bits: u64) -> Option<(Seq<u64>, int)> {
    match dec_words(bytes, at, num_words(bits)) {
        None => None,
        Some((ws, at2)) => {
            let items = unpack_words(ws, bits);
            if all_zero(items) {
                None
            } else {
                Some((items, at2))
            }
        },
    }
}

/// Reads a subchunk's field slots from `fi` on.
pub open spec fn dec_sub_slots(bytes: Seq<u8>, at: int, fi: int) -> Option<(SubchunkView, int)>
    decreases NUM_FIELDS - fi,
{
    if fi < 0 {
        None
    } else if fi >= NUM_FIELDS {
        Some((Seq::empty(), at))
    } else if !(0 <= at < bytes.len()) {
        None
    } else if bytes[at] == 0 {
        match dec_sub_slots(bytes, at + 1, fi + 1) {
            None => None,
            Some((rest, at2)) => Some((seq![None::<Seq<u64>>] + rest, at2)),
        }
    } else if bytes[at] == 1 {
        match dec_section(bytes, at + 1, spec_bits_at(fi)) {
            None => None,
            Some((items, at2)) => match dec_sub_slots(bytes, at2, fi + 1) {
                None => None,
                Some((rest, at3)) => Some((seq![Some(items)] + rest, at3)),
            },
        }
    } else {
        None
    }
}

/// Reads one present subchunk at `at`; one with every slot absent is
/// rejected as malformed, since the encoder never writes one.
pub open spec fn dec_subchunk(bytes: Seq<u8>, at: int) -> Option<(SubchunkView, int)> {
    match dec_sub_slots(bytes, at, 0) {
        None => None,
        Some((sv, at2)) => if sub_all_absent(sv) {
            None
        } else {
            Some((sv, at2))
        },
    }
}

/// Reads a chunk's subchunk slots from `si` on.
pub open spec fn dec_chunk_slots(bytes: Seq<u8>, at: int, si: int) -> Option<(ChunkView, int)>
    decreases NUM_SUBCHUNKS - si,
{
    if si < 0 {
        None
    } else if si >= NUM_SUBCHUNKS {
        Some((Seq::empty(), at))
    } else if !(0 <= at < bytes.len()) {
        None
    } else if bytes[at] == 0 {
        match dec_chunk_slots(bytes, at + 1, si + 1) {
            None => None,
            Some((rest, at2)) => Some((seq![None::<SubchunkView>] + rest, at2)),
        }
    } else if bytes[at] == 1 {
        match dec_subchunk(bytes, at + 1) {
            None => None,
            Some((sv, at2)) => match dec_chunk_slots(bytes, at2, si + 1) {
                None => None,
                Some((rest, at3)) => Some((seq![Some(sv)] + rest, at3)),
            },
        }
    } else {
        None
    }
}

/// Decodes a whole persisted chunk: all sixteen slots, consuming the
/// stream exactly.
pub open spec fn spec_decode_chunk(bytes: Seq<u8>) -> Option<ChunkView> {
    match dec_chunk_slots(bytes, 0, 0) {
        None => None,
        Some((v, at)) => if at == bytes.len() {
            Some(v)
        } else {
            None
        },
    }
}


/// Each little-endian byte of a word is below 256.
proof fn lemma_u64le_byte_fits(w: u64)
    by (bit_vector)
    ensures
        w & 0xff < 256,
        (w >> 8) & 0xff < 256,
        (w >> 16) & 0xff < 256,
        (w >> 24) & 0xff < 256,
        (w >> 32) & 0xff < 256,
        (w >> 40) & 0xff < 256,
        (w >> 48) & 0xff < 256,
        (w >> 56) & 0xff < 256,
{
}

/// Appends one packed word, little-endian.
fn push_u64le(out: &mut Vec<u8>, w: u64)
    ensures
        final(out)@ == old(out)@ + enc_u64le(w),
{
    proof {
        lemma_u64le_byte_fits(w);
    }
    out.push((w & 0xff) as u8);
    out.push(((w >> 8) & 0xff) as u8);
    out.push(((w >> 16) & 0xff) as u8);
    out.push(((w >> 24) & 0xff) as u8);
    out.push(((w >> 32) & 0xff) as u8);
    out.push(((w >> 40) & 0xff) as u8);
    out.push(((w >> 48) & 0xff) as u8);
    out.push(((w >> 56) & 0xff) as u8);
    proof {
        assert(out@ =~= old(out)@ + enc_u64le(w));
    }
}

/// Appends a present section's packed bit buffer.
fn push_section(out: &mut Vec<u8>, s: &Section)
    requires
        s.wf(),
    ensures
        final(out)@ == old(out)@ + enc_section(s@, s.spec_bits()),
{
    let ws = s.packed_words();
    let ghost gws = ws@;
    let ghost out0 = old(out)@;
    let mut i: usize = 0;
    proof {
        assert(gws.subrange(0, gws.len() as int) =~= gws);
        assert(out0 + enc_words(gws.subrange(0, gws.len() as int)) =~= out0 + enc_words(gws));
    }
    while i < ws.len()
        invariant
            ws@ == gws,
            i <= gws.len(),
            out@ + enc_words(gws.subrange(i as int, gws.len() as int)) == out0 + enc_words(gws),
        decreases ws@.len() - i,
    {
        let ghost rest = gws.subrange(i as int, gws.len() as int);
        push_u64le(out, ws[i]);
        proof {
            let rest2 = gws.subrange(i + 1, gws.len() as int);
            assert(rest.drop_first() =~= rest2);
            assert(rest[0] == gws[i as int]);
            assert(enc_words(rest) == enc_u64le(gws[i as int]) + enc_words(rest2));
            assert(out@ + enc_words(rest2) =~= out0 + enc_words(gws));
        }
        i = i + 1;
    }
    proof {
        assert(gws.subrange(gws.len() as int, gws.len() as int) =~= Seq::<u64>::empty());
        assert(enc_words(Seq::<u64>::empty()) =~= Seq::<u8>::empty());
        assert(out@ + Seq::<u8>::empty() =~= out@);
        assert(out@ =~= out0 + enc_section(s@, s.spec_bits()));
    }
}

/// Appends a present subchunk: a tag byte per field slot, present
/// slots followed by their sections.
fn push_subchunk(out: &mut Vec<u8>, sc: &Subchunk)
    requires
        sc.inv(),
    ensures
        final(out)@ == old(out)@ + enc_subchunk(sc@),
{
    let ghost out0 = old(out)@;
    let mut fi: usize = 0;
    while fi < NUM_FIELDS
        invariant
            sc.inv(),
            fi <= NUM_FIELDS,
            out@ + enc_sub_slots(sc@, fi as int) == out0 + enc_sub_slots(sc@, 0),
        decreases NUM_FIELDS - fi,
    {
        let ghost head = match sc@[fi as int] {
            None => seq![0u8],
            Some(items) => seq![1u8] + enc_section(items, spec_bits_at(fi as int)),
        };
        let ghost tail = enc_sub_slots(sc@, fi as int + 1);
        proof {
            assert(enc_sub_slots(sc@, fi as int) == head + tail);
        }
        let ghost before = out@;
        match sc.section_at(fi) {
            None => {
                out.push(0u8);
                proof {
                    assert(out@ =~= before + head);
                }
            },
            Some(s) => {
                out.push(1u8);
                let ghost mid = out@;
                proof {
                    assert(mid =~= before + seq![1u8]);
                }
                push_section(out, s);
                proof {
                    assert(out@ =~= before + head);
                }
            },
        }
        proof {
            assert((before + head) + tail =~= before + (head + tail));
            assert(out@ + tail =~= out0 + enc_sub_slots(sc@, 0));
        }
        fi = fi + 1;
    }
    proof {
        assert(enc_sub_slots(sc@, NUM_FIELDS as int) =~= Seq::<u8>::empty());
        assert(out@ + Seq::<u8>::empty() =~= out@);
    }
}

/// Serialises a chunk into the persisted byte format. Encoding is
/// total: it cannot fail.
pub fn encode_chunk(c: &Chunk) -> (r: Vec<u8>)
    requires
        c.inv(),
    ensures
        r@ == spec_encode_chunk(c@),
{
    let mut out: Vec<u8> = Vec::new();
    let ghost out0 = out@;
    let mut si: usize = 0;
    while si < NUM_SUBCHUNKS
        invariant
            c.inv(),
            si <= NUM_SUBCHUNKS,
            out0 == Seq::<u8>::empty(),
            out@ + enc_chunk_slots(c@, si as int) == out0 + enc_chunk_slots(c@, 0),
        decreases NUM_SUBCHUNKS - si,
    {
        let ghost head = match c@[si as int] {
            None => seq![0u8],
            Some(sv) => seq![1u8] + enc_subchunk(sv),
        };
        let ghost tail = enc_chunk_slots(c@, si as int + 1);
        proof {
            assert(enc_chunk_slots(c@, si as int) == head + tail);
        }
        let ghost before = out@;
        match c.subchunk_at(si) {
            None => {
                out.push(0u8);
                proof {
                    assert(out@ =~= before + head);
                }
            },
            Some(sc) => {
                out.push(1u8);
                proof {
                    assert(out@ =~= before + seq![1u8]);
                }
                push_subchunk(&mut out, sc);
                proof {
                    assert(out@ =~= before + head);
                }
            },
        }
        proof {
            assert((before + head) + tail =~= before + (head + tail));
            assert(out@ + tail =~= out0 + enc_chunk_slots(c@, 0));
        }
        si = si + 1;
    }
    proof {
        assert(enc_chunk_slots(c@, NUM_SUBCHUNKS as int) =~= Seq::<u8>::empty());
        assert(out@ + Seq::<u8>::empty() =~= out@);
        assert(out0 + enc_chunk_slots(c@, 0) =~= enc_chunk_slots(c@, 0));
    }
    out
}

/// Reads one little-endian word, or reports truncation.
fn read_u64le(bytes: &Vec<u8>, at: usize) -> (r: Result<(u64, usize), DecodeError>)
    requires
        at <= bytes@.len(),
    ensures
        match dec_u64le(bytes@, at as int) {
            Some(p) => r matches Ok(q) && q.0 == p.0 && q.1 == p.1 && p.1 <= bytes@.len(),
            None => r == Err::<(u64, usize), DecodeError>(DecodeError::Truncated),
        },
{
    if bytes.len() < 8 || at > bytes.len() - 8 {
        return Err(DecodeError::Truncated);
    }
    let w = (bytes[at] as u64) | ((bytes[at + 1] as u64) << 8u64) | ((bytes[at + 2] as u64)
        << 16u64) | ((bytes[at + 3] as u64) << 24u64) | ((bytes[at + 4] as u64) << 32u64) | ((
    bytes[at + 5] as u64) << 40u64) | ((bytes[at + 6] as u64) << 48u64) | ((bytes[at + 7] as u64)
        << 56u64);
    Ok((w, at + 8))
}

/// Reads `n` packed words, or reports truncation.
fn read_words(bytes: &Vec<u8>, at: usize, n: usize) -> (r: Result<(Vec<u64>, usize), DecodeError>)
    requires
        at <= bytes@.len(),
    ensures
        match dec_words(bytes@, at as int, n as int) {
            Some(p) => r matches Ok(q) && q.0@ == p.0 && q.0@.len() == n && q.1 == p.1 && p.1
                <= bytes@.len(),
            None => r == Err::<(Vec<u64>, usize), DecodeError>(DecodeError::Truncated),
        },
    decreases n,
{
    if n == 0 {
        let r: Vec<u64> = Vec::new();
        return Ok((r, at));
    }
    match read_u64le(bytes, at) {
        Err(e) => Err(e),
        Ok((w, at2)) => match read_words(bytes, at2, n - 1) {
            Err(e) => Err(e),
            Ok((mut ws, at3)) => {
                ws.insert(0, w);
                proof {
                    if dec_words(bytes@, at as int, n as int) is Some {
                        let p = dec_words(bytes@, at as int, n as int).unwrap();
                        let p2 = dec_words(bytes@, at as int + 8, n as int - 1).unwrap();
                        assert(ws@ =~= seq![w] + p2.0);
                    }
                }
                Ok((ws, at3))
            },
        },
    }
}

/// Reads one present section of width `bits`, or reports the failure.
fn read_section(bytes: &Vec<u8>, at: usize, bits: u64) -> (r: Result<
    (Section, usize),
    DecodeError,
>)
    requires
        at <= bytes@.len(),
        1 <= bits <= 8,
    ensures
        match dec_section(bytes@, at as int, bits) {
            Some(p) => r matches Ok(q) && q.0.wf() && q.0.spec_bits() == bits && q.0@ == p.0
                && !all_zero(q.0@) && q.1 == p.1 && p.1 <= bytes@.len(),
            None => r is Err,
        },
{
    proof {
        crate::section::lemma_num_words_pos(bits);
    }
    let ipw = (64u64 / bits) as usize;
    let nwords = (crate::section::SECTION_VOLUME + ipw - 1) / ipw;
    proof {
        assert(nwords as int == num_words(bits));
    }
    match read_words(bytes, at, nwords) {
        Err(e) => Err(e),
        Ok((ws, at2)) => {
            let s = Section::from_words(bits, ws);
            if s.is_empty() {
                Err(DecodeError::Malformed)
            } else {
                Ok((s, at2))
            }
        },
    }
}

/// Reads a subchunk's field slots from `fi` on, or reports the failure.
fn read_sub_slots(bytes: &Vec<u8>, at: usize, fi: usize) -> (r: Result<
    (Vec<Option<Section>>, usize),
    DecodeError,
>)
    requires
        at <= bytes@.len(),
        fi <= NUM_FIELDS,
    ensures
        match dec_sub_slots(bytes@, at as int, fi as int) {
            Some(p) => r matches Ok(q) && q.1 == p.1 && p.1 <= bytes@.len() && q.0@.len()
                == p.0.len() && p.0.len() == NUM_FIELDS - fi && forall|j: int|
                0 <= j < p.0.len() ==> match #[trigger] q.0@[j] {
                    None => p.0[j] is None,
                    Some(s) => p.0[j] == Some(s@) && s.wf() && s.spec_bits() == spec_bits_at(
                        fi + j,
                    ) && !all_zero(s@),
                },
            None => r is Err,
        },
    decreases NUM_FIELDS - fi,
{
    if fi >= NUM_FIELDS {
        let r: Vec<Option<Section>> = Vec::new();
        return Ok((r, at));
    }
    if at >= bytes.len() {
        return Err(DecodeError::Truncated);
    }
    let tag = bytes[at];
    if tag == 0 {
        match read_sub_slots(bytes, at + 1, fi + 1) {
            Err(e) => Err(e),
            Ok((mut slots, at2)) => {
                slots.insert(0, None);
                proof {
                    if dec_sub_slots(bytes@, at as int, fi as int) is Some {
                        let p = dec_sub_slots(bytes@, at as int, fi as int).unwrap();
                        let p2 = dec_sub_slots(bytes@, at as int + 1, fi as int + 1).unwrap();
                        assert(p.0 =~= seq![None::<Seq<u64>>] + p2.0);
                        assert forall|j: int| 0 <= j < p.0.len() implies match #[trigger] slots@[j] {
                            None => p.0[j] is None,
                            Some(s) => p.0[j] == Some(s@) && s.wf() && s.spec_bits()
                                == spec_bits_at(fi as int + j) && !all_zero(s@),
                        } by {
                            if j > 0 {
                                assert(slots@[j] == slots@.subrange(1, slots@.len() as int)[j - 1]);
                            }
                        }
                    }
                }
                Ok((slots, at2))
            },
        }
    } else if tag == 1 {
        let f = field_at(fi);
        match read_section(bytes, at + 1, f.bits()) {
            Err(e) => Err(e),
            Ok((s, at2)) => match read_sub_slots(bytes, at2, fi + 1) {
                Err(e) => Err(e),
                Ok((mut slots, at3)) => {
                    let ghost s_view = s@;
                    slots.insert(0, Some(s));
                    proof {
                        if dec_sub_slots(bytes@, at as int, fi as int) is Some {
                            let p = dec_sub_slots(bytes@, at as int, fi as int).unwrap();
                            let p2 = dec_sub_slots(bytes@, at2 as int, fi as int + 1).unwrap();
                            assert(p.0 =~= seq![Some(s_view)] + p2.0);
                            assert forall|j: int|
                                0 <= j < p.0.len() implies match #[trigger] slots@[j] {
                                None => p.0[j] is None,
                                Some(s2) => p.0[j] == Some(s2@) && s2.wf() && s2.spec_bits()
                                    == spec_bits_at(fi as int + j) && !all_zero(s2@),
                            } by {
                                if j > 0 {
                                    assert(slots@[j] == slots@.subrange(1, slots@.len() as int)[j
                                        - 1]);
                                }
                            }
                        }
                    }
                    Ok((slots, at3))
                },
            },
        }
    } else {
        Err(DecodeError::Malformed)
    }
}

/// Reads one present subchunk, or reports the failure.
fn read_subchunk(bytes: &Vec<u8>, at: usize) -> (r: Result<(Subchunk, usize), DecodeError>)
    requires
        at <= bytes@.len(),
    ensures
        match dec_subchunk(bytes@, at as int) {
            Some(p) => r matches Ok(q) && q.0.inv() && q.0@ == p.0 && !sub_all_absent(p.0) && q.1
                == p.1 && p.1 <= bytes@.len(),
            None => r is Err,
        },
{
    match read_sub_slots(bytes, at, 0) {
        Err(e) => Err(e),
        Ok((slots, at2)) => {
            let sc = Subchunk::from_sections(slots);
            proof {
                if dec_sub_slots(bytes@, at as int, 0) is Some {
                    let p = dec_sub_slots(bytes@, at as int, 0).unwrap();
                    assert(sc@ =~= p.0);
                }
            }
            if sc.is_empty() {
                Err(DecodeError::Malformed)
            } else {
                Ok((sc, at2))
            }
        },
    }
}

/// Reads a chunk's subchunk slots from `si` on, or reports the failure.
fn read_chunk_slots(bytes: &Vec<u8>, at: usize, si: usize) -> (r: Result<
    (Vec<Option<Subchunk>>, usize),
    DecodeError,
>)
    requires
        at <= bytes@.len(),
        si <= NUM_SUBCHUNKS,
    ensures
        match dec_chunk_slots(bytes@, at as int, si as int) {
            Some(p) => r matches Ok(q) && q.1 == p.1 && p.1 <= bytes@.len() && q.0@.len()
                == p.0.len() && p.0.len() == NUM_SUBCHUNKS - si && forall|j: int|
                0 <= j < p.0.len() ==> match #[trigger] q.0@[j] {
                    None => p.0[j] is None,
                    Some(sc) => p.0[j] == Some(sc@) && sc.inv() && !sub_all_absent(sc@),
                },
            None => r is Err,
        },
    decreases NUM_SUBCHUNKS - si,
{
    if si >= NUM_SUBCHUNKS {
        let r: Vec<Option<Subchunk>> = Vec::new();
        return Ok((r, at));
    }
    if at >= bytes.len() {
        return Err(DecodeError::Truncated);
    }
    let tag = bytes[at];
    if tag == 0 {
        match read_chunk_slots(bytes, at + 1, si + 1) {
            Err(e) => Err(e),
            Ok((mut slots, at2)) => {
                slots.insert(0, None);
                proof {
                    if dec_chunk_slots(bytes@, at as int, si as int) is Some {
                        let p = dec_chunk_slots(bytes@, at as int, si as int).unwrap();
                        let p2 = dec_chunk_slots(bytes@, at as int + 1, si as int + 1).unwrap();
                        assert(p.0 =~= seq![None::<SubchunkView>] + p2.0);
                        assert forall|j: int| 0 <= j < p.0.len() implies match #[trigger] slots@[j] {
                            None => p.0[j] is None,
                            Some(sc) => p.0[j] == Some(sc@) && sc.inv() && !sub_all_absent(sc@),
                        } by {
                            if j > 0 {
                                assert(slots@[j] == slots@.subrange(1, slots@.len() as int)[j - 1]);
                            }
                        }
                    }
                }
                Ok((slots, at2))
            },
        }
    } else if tag == 1 {
        match read_subchunk(bytes, at + 1) {
            Err(e) => Err(e),
            Ok((sc, at2)) => match read_chunk_slots(bytes, at2, si + 1) {
                Err(e) => Err(e),
                Ok((mut slots, at3)) => {
                    let ghost sc_view = sc@;
                    slots.insert(0, Some(sc));
                    proof {
                        if dec_chunk_slots(bytes@, at as int, si as int) is Some {
                            let p = dec_chunk_slots(bytes@, at as int, si as int).unwrap();
                            let p2 = dec_chunk_slots(bytes@, at2 as int, si as int + 1).unwrap();
                            assert(p.0 =~= seq![Some(sc_view)] + p2.0);
                            assert forall|j: int|
                                0 <= j < p.0.len() implies match #[trigger] slots@[j] {
                                None => p.0[j] is None,
                                Some(sc2) => p.0[j] == Some(sc2@) && sc2.inv() && !sub_all_absent(
                                    sc2@,
                                ),
                            } by {
                                if j > 0 {
                                    assert(slots@[j] == slots@.subrange(1, slots@.len() as int)[j
                                        - 1]);
                                }
                            }
                        }
                    }
                    Ok((slots, at3))
                },
            },
        }
    } else {
        Err(DecodeError::Malformed)
    }
}

/// Deserialises a persisted chunk byte stream. A truncated or malformed
/// stream is rejected with a decode error; a chunk is only ever handed
/// back whole, never partially populated.
pub fn decode_chunk(bytes: &Vec<u8>) -> (r: Result<Chunk, DecodeError>)
    ensures
        r matches Ok(c) ==> spec_decode_chunk(bytes@) == Some(c@) && c.inv(),
        r is Err ==> spec_decode_chunk(bytes@) is None,
{
    match read_chunk_slots(bytes, 0, 0) {
        Err(e) => Err(e),
        Ok((slots, at)) => {
            if at != bytes.len() {
                Err(DecodeError::Malformed)
            } else {
                let c = Chunk::from_subchunks(slots);
                proof {
                    let p = dec_chunk_slots(bytes@, 0, 0).unwrap();
                    assert(c@ =~= p.0);
                }
                Ok(c)
            }
        },
    }
}

/// A word's little-endian bytes reassemble to the word, and each byte
/// fits its type.
proof fn lemma_u64le_bytes(w: u64)
    by (bit_vector)
    ensures
        (((w & 0xff) as u8) as u64) | (((((w >> 8) & 0xff) as u8) as u64) << 8) | (((((w >> 16)
            & 0xff) as u8) as u64) << 16) | (((((w >> 24) & 0xff) as u8) as u64) << 24) | (((((w
            >> 32) & 0xff) as u8) as u64) << 32) | (((((w >> 40) & 0xff) as u8) as u64) << 40) | ((
        (((w >> 48) & 0xff) as u8) as u64) << 48) | (((((w >> 56) & 0xff) as u8) as u64) << 56)
            == w,
{
}

/// Parsing a word where its encoding lies yields the word.
proof fn lemma_dec_u64le(bytes: Seq<u8>, at: int, w: u64)
    requires
        0 <= at,
        at + 8 <= bytes.len(),
        bytes.subrange(at, at + 8) == enc_u64le(w),
    ensures
        dec_u64le(bytes, at) == Some((w, at + 8)),
{
    assert forall|k: int| 0 <= k < 8 implies bytes[at + k] == enc_u64le(w)[k] by {
        assert(bytes.subrange(at, at + 8)[k] == bytes[at + k]);
    }
    lemma_u64le_bytes(w);
}

/// The byte run of `n` words is eight bytes per word.
proof fn lemma_enc_words_len(ws: Seq<u64>)
    ensures
        enc_words(ws).len() == 8 * ws.len(),
    decreases ws.len(),
{
    if ws.len() > 0 {
        lemma_enc_words_len(ws.drop_first());
    }
}

/// Parsing a run of words where their encoding lies yields the words.
proof fn lemma_dec_words(bytes: Seq<u8>, at: int, ws: Seq<u64>)
    requires
        0 <= at,
        at + 8 * ws.len() <= bytes.len(),
        bytes.subrange(at, at + 8 * ws.len()) == enc_words(ws),
    ensures
        dec_words(bytes, at, ws.len() as int) == Some((ws, at + 8 * ws.len())),
    decreases ws.len(),
{
    lemma_enc_words_len(ws);
    if ws.len() == 0 {
        assert(ws =~= Seq::<u64>::empty());
    } else {
        let rest = ws.drop_first();
        lemma_enc_words_len(rest);
        assert(bytes.subrange(at, at + 8) =~= enc_u64le(ws[0])) by {
            assert forall|k: int| 0 <= k < 8 implies bytes.subrange(at, at + 8)[k] == enc_u64le(
                ws[0],
            )[k] by {
                assert(bytes.subrange(at, at + 8 * ws.len())[k] == bytes[at + k]);
                assert(enc_words(ws)[k] == (enc_u64le(ws[0]) + enc_words(rest))[k]);
            }
        }
        lemma_dec_u64le(bytes, at, ws[0]);
        assert(bytes.subrange(at + 8, at + 8 + 8 * rest.len()) =~= enc_words(rest)) by {
            assert forall|k: int| 0 <= k < 8 * rest.len() implies bytes.subrange(
                at + 8,
                at + 8 + 8 * rest.len(),
            )[k] == enc_words(rest)[k] by {
                assert(bytes.subrange(at, at + 8 * ws.len())[8 + k] == bytes[at + 8 + k]);
                assert(enc_words(ws)[8 + k] == (enc_u64le(ws[0]) + enc_words(rest))[8 + k]);
            }
        }
        lemma_dec_words(bytes, at + 8, rest);
        assert(seq![ws[0]] + rest =~= ws);
    }
}

/// Parsing a section where the encoding of canonical values lies yields
/// those values.
proof fn lemma_dec_section(bytes: Seq<u8>, at: int, items: Seq<u64>, bits: u64)
    requires
        1 <= bits <= 8,
        items.len() == crate::section::SECTION_VOLUME,
        forall|k: int|
            0 <= k < crate::section::SECTION_VOLUME ==> #[trigger] items[k] < (1u64 << bits),
        !all_zero(items),
        0 <= at,
        at + enc_section(items, bits).len() <= bytes.len(),
        bytes.subrange(at, at + enc_section(items, bits).len()) == enc_section(items, bits),
    ensures
        dec_section(bytes, at, bits) == Some((items, at + enc_section(items, bits).len())),
{
    let ws = pack_words(items, bits);
    crate::section::lemma_num_words_pos(bits);
    assert(ws.len() == num_words(bits));
    lemma_enc_words_len(ws);
    lemma_dec_words(bytes, at, ws);
    crate::section::lemma_unpack_pack(items, bits);
}

/// Parsing a subchunk's slots where their encoding lies yields the
/// slots.
proof fn lemma_dec_sub_slots(bytes: Seq<u8>, at: int, sv: SubchunkView, fi: int)
    requires
        sub_view_wf(sv),
        0 <= fi <= NUM_FIELDS,
        0 <= at,
        at + enc_sub_slots(sv, fi).len() <= bytes.len(),
        bytes.subrange(at, at + enc_sub_slots(sv, fi).len()) == enc_sub_slots(sv, fi),
    ensures
        dec_sub_slots(bytes, at, fi) == Some(
            (sv.subrange(fi, NUM_FIELDS as int), at + enc_sub_slots(sv, fi).len()),
        ),
    decreases NUM_FIELDS - fi,
{
    let enc = enc_sub_slots(sv, fi);
    if fi >= NUM_FIELDS {
        assert(sv.subrange(fi, NUM_FIELDS as int) =~= Seq::<Option<Seq<u64>>>::empty());
    } else {
        let head = match sv[fi] {
            None => seq![0u8],
            Some(items) => seq![1u8] + enc_section(items, spec_bits_at(fi)),
        };
        let tail = enc_sub_slots(sv, fi + 1);
        assert(enc == head + tail);
        assert(bytes[at] == head[0]) by {
            assert(bytes.subrange(at, at + enc.len())[0] == bytes[at]);
        }
        match sv[fi] {
            None => {
                assert(bytes[at] == 0);
                assert(bytes.subrange(at + 1, at + 1 + tail.len()) =~= tail) by {
                    assert forall|k: int| 0 <= k < tail.len() implies bytes.subrange(
                        at + 1,
                        at + 1 + tail.len(),
                    )[k] == tail[k] by {
                        assert(bytes.subrange(at, at + enc.len())[1 + k] == bytes[at + 1 + k]);
                        assert(enc[1 + k] == (head + tail)[1 + k]);
                    }
                }
                lemma_dec_sub_slots(bytes, at + 1, sv, fi + 1);
                assert(seq![None::<Seq<u64>>] + sv.subrange(fi + 1, NUM_FIELDS as int)
                    =~= sv.subrange(fi, NUM_FIELDS as int));
            },
            Some(items) => {
                assert(bytes[at] == 1);
                let sect = enc_section(items, spec_bits_at(fi));
                assert(bytes.subrange(at + 1, at + 1 + sect.len()) =~= sect) by {
                    assert forall|k: int| 0 <= k < sect.len() implies bytes.subrange(
                        at + 1,
                        at + 1 + sect.len(),
                    )[k] == sect[k] by {
                        assert(bytes.subrange(at, at + enc.len())[1 + k] == bytes[at + 1 + k]);
                        assert(enc[1 + k] == (head + tail)[1 + k]);
                        assert(head[1 + k] == (seq![1u8] + sect)[1 + k]);
                    }
                }
                assert(1 <= spec_bits_at(fi) <= 8);
                lemma_dec_section(bytes, at + 1, items, spec_bits_at(fi));
                let at2 = at + 1 + sect.len();
                assert(bytes.subrange(at2, at2 + tail.len()) =~= tail) by {
                    assert forall|k: int| 0 <= k < tail.len() implies bytes.subrange(
                        at2,
                        at2 + tail.len(),
                    )[k] == tail[k] by {
                        assert(bytes.subrange(at, at + enc.len())[1 + sect.len() + k] == bytes[at
                            + 1 + sect.len() + k]);
                        assert(enc[1 + sect.len() + k] == (head + tail)[1 + sect.len() + k]);
                    }
                }
                lemma_dec_sub_slots(bytes, at2, sv, fi + 1);
                assert(seq![Some(items)] + sv.subrange(fi + 1, NUM_FIELDS as int) =~= sv.subrange(
                    fi,
                    NUM_FIELDS as int,
                ));
            },
        }
    }
}

/// Parsing a present subchunk where its encoding lies yields it.
proof fn lemma_dec_subchunk(bytes: Seq<u8>, at: int, sv: SubchunkView)
    requires
        sub_view_wf(sv),
        !sub_all_absent(sv),
        0 <= at,
        at + enc_subchunk(sv).len() <= bytes.len(),
        bytes.subrange(at, at + enc_subchunk(sv).len()) == enc_subchunk(sv),
    ensures
        dec_subchunk(bytes, at) == Some((sv, at + enc_subchunk(sv).len())),
{
    lemma_dec_sub_slots(bytes, at, sv, 0);
    assert(sv.subrange(0, NUM_FIELDS as int) =~= sv);
}

/// Parsing a chunk's slots where their encoding lies yields the slots.
proof fn lemma_dec_chunk_slots(bytes: Seq<u8>, at: int, v: ChunkView, si: int)
    requires
        chunk_view_wf(v),
        0 <= si <= NUM_SUBCHUNKS,
        0 <= at,
        at + enc_chunk_slots(v, si).len() <= bytes.len(),
        bytes.subrange(at, at + enc_chunk_slots(v, si).len()) == enc_chunk_slots(v, si),
    ensures
        dec_chunk_slots(bytes, at, si) == Some(
            (v.subrange(si, NUM_SUBCHUNKS as int), at + enc_chunk_slots(v, si).len()),
        ),
    decreases NUM_SUBCHUNKS - si,
{
    let enc = enc_chunk_slots(v, si);
    if si >= NUM_SUBCHUNKS {
        assert(v.subrange(si, NUM_SUBCHUNKS as int) =~= Seq::<Option<SubchunkView>>::empty());
    } else {
        let head = match v[si] {
            None => seq![0u8],
            Some(sv) => seq![1u8] + enc_subchunk(sv),
        };
        let tail = enc_chunk_slots(v, si + 1);
        assert(enc == head + tail);
        assert(bytes[at] == head[0]) by {
            assert(bytes.subrange(at, at + enc.len())[0] == bytes[at]);
        }
        match v[si] {
            None => {
                assert(bytes[at] == 0);
                assert(bytes.subrange(at + 1, at + 1 + tail.len()) =~= tail) by {
                    assert forall|k: int| 0 <= k < tail.len() implies bytes.subrange(
                        at + 1,
                        at + 1 + tail.len(),
                    )[k] == tail[k] by {
                        assert(bytes.subrange(at, at + enc.len())[1 + k] == bytes[at + 1 + k]);
                        assert(enc[1 + k] == (head + tail)[1 + k]);
                    }
                }
                lemma_dec_chunk_slots(bytes, at + 1, v, si + 1);
                assert(seq![None::<SubchunkView>] + v.subrange(si + 1, NUM_SUBCHUNKS as int)
                    =~= v.subrange(si, NUM_SUBCHUNKS as int));
            },
            Some(sv) => {
                assert(bytes[at] == 1);
                let sub = enc_subchunk(sv);
                assert(bytes.subrange(at + 1, at + 1 + sub.len()) =~= sub) by {
                    assert forall|k: int| 0 <= k < sub.len() implies bytes.subrange(
                        at + 1,
                        at + 1 + sub.len(),
                    )[k] == sub[k] by {
                        assert(bytes.subrange(at, at + enc.len())[1 + k] == bytes[at + 1 + k]);
                        assert(enc[1 + k] == (head + tail)[1 + k]);
                        assert(head[1 + k] == (seq![1u8] + sub)[1 + k]);
                    }
                }
                lemma_dec_subchunk(bytes, at + 1, sv);
                let at2 = at + 1 + sub.len();
                assert(bytes.subrange(at2, at2 + tail.len()) =~= tail) by {
                    assert forall|k: int| 0 <= k < tail.len() implies bytes.subrange(
                        at2,
                        at2 + tail.len(),
                    )[k] == tail[k] by {
                        assert(bytes.subrange(at, at + enc.len())[1 + sub.len() + k] == bytes[at + 1
                            + sub.len() + k]);
                        assert(enc[1 + sub.len() + k] == (head + tail)[1 + sub.len() + k]);
                    }
                }
                lemma_dec_chunk_slots(bytes, at2, v, si + 1);
                assert(seq![Some(sv)] + v.subrange(si + 1, NUM_SUBCHUNKS as int) =~= v.subrange(
                    si,
                    NUM_SUBCHUNKS as int,
                ));
            },
        }
    }
}

/// Round trip: decoding the encoding of any well-formed chunk state
/// yields exactly that state — every field at every position reads back
/// as it was stored, and default values stay default.
pub proof fn lemma_chunk_codec_round_trip(v: ChunkView)
    requires
        chunk_view_wf(v),
    ensures
        spec_decode_chunk(spec_encode_chunk(v)) == Some(v),
{
    let bytes = spec_encode_chunk(v);
    assert(bytes.subrange(0, bytes.len() as int) =~= bytes);
    lemma_dec_chunk_slots(bytes, 0, v, 0);
    assert(v.subrange(0, NUM_SUBCHUNKS as int) =~= v);
}

} // verus!

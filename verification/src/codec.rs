//! The packed-pixel codec: one 32-bit word holds four 8-bit channels,
//! most significant to least significant: A (hue or red), B (saturation or
//! green), C (value or blue), and the mask.

use vstd::prelude::*;

use crate::types::{Pixel, BYTE_MASK, H_OFFSET, M_OFFSET, S_OFFSET, V_OFFSET};

verus! {

/// Channel A of a packed word: bits 24..=31.
pub open spec fn chan_a(w: u32) -> u32 {
    (w >> H_OFFSET) & BYTE_MASK
}

/// Channel B of a packed word: bits 16..=23.
pub open spec fn chan_b(w: u32) -> u32 {
    (w >> S_OFFSET) & BYTE_MASK
}

/// Channel C of a packed word: bits 8..=15.
pub open spec fn chan_c(w: u32) -> u32 {
    (w >> V_OFFSET) & BYTE_MASK
}

/// The mask channel of a packed word: bits 0..=7.
pub open spec fn chan_mask(w: u32) -> u32 {
    (w >> M_OFFSET) & BYTE_MASK
}

/// The pixel obtained by unpacking `w`, tagged with the coordinate it was
/// read from.
pub open spec fn unpack_spec(w: u32, x: usize, y: usize) -> Pixel {
    Pixel { h: chan_a(w), s: chan_b(w), v: chan_c(w), mask: chan_mask(w), x, y }
}

/// The word obtained by packing the four channel fields of `p` at their
/// offsets.
pub open spec fn pack_spec(p: Pixel) -> u32 {
    (p.h << H_OFFSET) | (p.s << S_OFFSET) | (p.v << V_OFFSET) | (p.mask << M_OFFSET)
}

/// Extract the four channels of a packed word; never fails, and every
/// extracted channel fits in 8 bits.
pub fn unpack(w: u32, x: usize, y: usize) -> (p: Pixel)
    ensures
        p == unpack_spec(w, x, y),
        p.byte_valid(),
{
    proof {
        assert((w >> 24) & 0xFF < 256 && (w >> 16) & 0xFF < 256 && (w >> 8) & 0xFF < 256 && (w
            >> 0) & 0xFF < 256) by (bit_vector);
    }
    Pixel {
        h: (w >> H_OFFSET) & BYTE_MASK,
        s: (w >> S_OFFSET) & BYTE_MASK,
        v: (w >> V_OFFSET) & BYTE_MASK,
        mask: (w >> M_OFFSET) & BYTE_MASK,
        x,
        y,
    }
}

/// Pack the four channel fields of `p` into one word.  Each field must
/// already fit in 8 bits; packing an over-wide field would bleed into the
/// neighboring channel, so that is ruled out by precondition.
pub fn pack(p: &Pixel) -> (w: u32)
    requires
        p.byte_valid(),
    ensures
        w == pack_spec(*p),
{
    (p.h << H_OFFSET) | (p.s << S_OFFSET) | (p.v << V_OFFSET) | (p.mask << M_OFFSET)
}

/// Round-trip law: unpacking a packed pixel gives the pixel back, for every
/// pixel whose channel fields fit in 8 bits.
pub proof fn lemma_unpack_pack(p: Pixel)
    requires
        p.byte_valid(),
    ensures
        unpack_spec(pack_spec(p), p.x, p.y) == p,
{
    let h = p.h;
    let s = p.s;
    let v = p.v;
    let m = p.mask;
    assert((((h << 24) | (s << 16) | (v << 8) | (m << 0)) >> 24) & 0xFF == h && (((h << 24) | (s
        << 16) | (v << 8) | (m << 0)) >> 16) & 0xFF == s && (((h << 24) | (s << 16) | (v << 8) | (m
        << 0)) >> 8) & 0xFF == v && (((h << 24) | (s << 16) | (v << 8) | (m << 0)) >> 0) & 0xFF
        == m) by (bit_vector)
        requires
            h < 256 && s < 256 && v < 256 && m < 256,
    ;
}

/// Packing the channels extracted from a word rebuilds the word exactly: the
/// four channels cover all 32 bits.
pub proof fn lemma_pack_unpack(w: u32, x: usize, y: usize)
    ensures
        pack_spec(unpack_spec(w, x, y)) == w,
{
    assert(((((w >> 24) & 0xFF) << 24) | (((w >> 16) & 0xFF) << 16) | (((w >> 8) & 0xFF) << 8) | ((
    (w >> 0) & 0xFF) << 0)) == w) by (bit_vector);
}

} // verus!

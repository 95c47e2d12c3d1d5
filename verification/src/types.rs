//! Core data types: the packed word layout, the transient unpacked pixel,
//! and the image that owns a grid of packed words.

use vstd::prelude::*;

verus! {

/// Bit offset of channel A (hue, or red) inside a packed word.
pub const H_OFFSET: u32 = 24;

/// Bit offset of channel B (saturation, or green) inside a packed word.
pub const S_OFFSET: u32 = 16;

/// Bit offset of channel C (value, or blue) inside a packed word.
pub const V_OFFSET: u32 = 8;

/// Bit offset of the mask channel inside a packed word.
pub const M_OFFSET: u32 = 0;

/// Mask selecting the low byte of a word.
pub const BYTE_MASK: u32 = 0x0000_00FF;

/// The color-space interpretation of an image's three color channels.
#[derive(Clone, Copy, Debug, PartialEq, Eq, Structural)]
pub enum ColorSpace {
    RGB,
    HSV,
}

/// A transient, unpacked pixel: the four 8-bit channels of one packed word,
/// together with the coordinate it was read from.  It exists only for the
/// duration of a traversal callback and is never persisted.
#[derive(Clone, Copy, Debug, PartialEq, Eq, Structural)]
pub struct Pixel {
    /// Channel A: hue, or red.
    pub h: u32,
    /// Channel B: saturation, or green.
    pub s: u32,
    /// Channel C: value, or blue.
    pub v: u32,
    /// Mask channel: region membership tag, independent of color.
    pub mask: u32,
    /// Originating column.
    pub x: usize,
    /// Originating row.
    pub y: usize,
}

impl Pixel {
    /// Each channel field fits in 8 bits, so the pixel can be packed without
    /// channel bleed.
    pub open spec fn byte_valid(self) -> bool {
        self.h < 256 && self.s < 256 && self.v < 256 && self.mask < 256
    }
}

/// A rectangular grid of packed pixel words, stored row-major: the word for
/// coordinate `(x, y)` lives at index `y * width + x`.  Width and height are
/// fixed at construction.  The color-space tag records how the three color
/// channels of every word are currently to be read.
pub struct Image {
    pub width: usize,
    pub height: usize,
    pub space: ColorSpace,
    pub data: Vec<u32>,
}

impl Image {
    /// The storage holds exactly one word per cell.
    pub open spec fn wf(self) -> bool {
        self.data@.len() == self.width * self.height
    }

    /// The coordinate pair lies inside the grid.
    pub open spec fn in_bounds(self, x: int, y: int) -> bool {
        0 <= x < self.width && 0 <= y < self.height
    }
}

/// The word of the row-major grid `s` (of row length `w`) at column `x`,
/// row `y`.
pub open spec fn cell(s: Seq<u32>, w: usize, x: usize, y: usize) -> u32 {
    s[y as int * w as int + x as int]
}

/// A well-formed image's word count, `width * height`, is the length of an
/// actual vector, so it fits in `usize`.
pub proof fn lemma_grid_len(img: Image)
    requires
        img.wf(),
    ensures
        img.data@.len() == img.width * img.height,
        img.width * img.height <= usize::MAX,
{
    broadcast use vstd::std_specs::vec::axiom_spec_len;

    assert(img.data.len() == img.data@.len());
}

/// Row-major indices stay inside the grid: `y * w + x` addresses one of the
/// `h * w` words.
pub proof fn lemma_index_in_grid(w: int, h: int, x: int, y: int)
    by (nonlinear_arith)
    requires
        0 <= x < w,
        0 <= y < h,
    ensures
        0 <= y * w + x < h * w,
        0 <= y * w + x < w * h,
{
}

/// Row-major addressing is injective: distinct in-bounds coordinates map to
/// distinct indices.
pub proof fn lemma_index_injective(w: int, x1: int, y1: int, x2: int, y2: int)
    by (nonlinear_arith)
    requires
        0 <= x1 < w,
        0 <= x2 < w,
        y1 * w + x1 == y2 * w + x2,
    ensures
        x1 == x2 && y1 == y2,
{
}

/// A row-major index decomposes into its coordinates: if `i == y * w + x`
/// with `x` a valid column, then `x` and `y` are `i`'s remainder and quotient
/// by the row length.
pub proof fn lemma_index_to_coords(w: int, x: int, y: int)
    requires
        0 <= x < w,
        0 <= y,
    ensures
        (y * w + x) % w == x,
        (y * w + x) / w == y,
{
    vstd::arithmetic::div_mod::lemma_fundamental_div_mod_converse(y * w + x, w, y, x);
}

} // verus!

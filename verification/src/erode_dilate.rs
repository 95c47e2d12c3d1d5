//! Mask erosion and dilation with a 3x3 structuring element (the Chebyshev
//! ball of radius 1).  Each operation runs in two passes: pass one reads
//! neighbor masks from a snapshot of the image taken before the pass and
//! marks affected interior pixels with a reserved sentinel mask, deferring
//! the destructive write; pass two sweeps the full image and replaces every
//! sentinel mask with its final value.  The result is therefore independent
//! of traversal order.

use vstd::prelude::*;

use crate::codec::{chan_a, chan_b, chan_c, chan_mask, pack_spec, unpack_spec};
use crate::types::{
    cell, lemma_grid_len, lemma_index_in_grid, lemma_index_to_coords, Image, Pixel,
};

verus! {

/// Reserved sentinel mask value, used only as transient scratch during a
/// morphology pass.  Callers must never supply it as a target or default
/// mask.
pub const TMP_MASK: u32 = 0x0000_00FF;

/// The mask channel of `w` equals the target or the secondary mask value.
pub open spec fn mask_matches(w: u32, tgt: u32, sec: u32) -> bool {
    chan_mask(w) == tgt || chan_mask(w) == sec
}

/// 1 when the condition holds, else 0.
pub open spec fn count1(b: bool) -> int {
    if b {
        1
    } else {
        0
    }
}

/// How many of the nine cells of the 3x3 neighborhood centered at `(x, y)`
/// (the center included) have a mask equal to `tgt` or to `sec`, in the
/// row-major grid `s` of row length `w`.
pub open spec fn adjacent_count(s: Seq<u32>, w: int, x: int, y: int, tgt: u32, sec: u32) -> int {
    count1(mask_matches(s[(y - 1) * w + (x - 1)], tgt, sec)) + count1(
        mask_matches(s[(y - 1) * w + x], tgt, sec),
    ) + count1(mask_matches(s[(y - 1) * w + (x + 1)], tgt, sec)) + count1(
        mask_matches(s[y * w + (x - 1)], tgt, sec),
    ) + count1(mask_matches(s[y * w + x], tgt, sec)) + count1(
        mask_matches(s[y * w + (x + 1)], tgt, sec),
    ) + count1(mask_matches(s[(y + 1) * w + (x - 1)], tgt, sec)) + count1(
        mask_matches(s[(y + 1) * w + x], tgt, sec),
    ) + count1(mask_matches(s[(y + 1) * w + (x + 1)], tgt, sec))
}

/// `w` with its mask channel replaced by `m`; the color channels are kept.
pub open spec fn with_mask(w: u32, m: u32) -> u32 {
    (w & 0xFFFF_FF00) | m
}

/// Index `i` of a row-major `w` by `h` grid lies in the interior: not in the
/// first or last column, nor in the first or last row.
pub open spec fn interior_index(w: int, h: int, i: int) -> bool {
    1 <= i % w && i % w < w - 1 && 1 <= i / w && i / w < h - 1
}

/// The grid after the marking pass of erosion: every interior cell whose
/// 3x3 neighborhood is not made up entirely of `tgt` or sentinel masks gets
/// the sentinel mask; everything else is untouched.  All neighbor masks are
/// read from the original grid `s`.
pub open spec fn erode_marked(s: Seq<u32>, w: int, h: int, tgt: u32) -> Seq<u32> {
    Seq::new(
        s.len(),
        |i: int|
            if interior_index(w, h, i) && adjacent_count(s, w, i % w, i / w, tgt, TMP_MASK)
                != 9 {
                with_mask(s[i], TMP_MASK)
            } else {
                s[i]
            },
    )
}

/// The grid after the marking pass of dilation: every interior cell whose
/// mask is not already `tgt` but which has at least one `tgt` mask in its
/// 3x3 neighborhood gets the sentinel mask; everything else is untouched.
pub open spec fn dilate_marked(s: Seq<u32>, w: int, h: int, tgt: u32) -> Seq<u32> {
    Seq::new(
        s.len(),
        |i: int|
            if interior_index(w, h, i) && chan_mask(s[i]) != tgt && adjacent_count(
                s,
                w,
                i % w,
                i / w,
                tgt,
                tgt,
            ) > 0 {
                with_mask(s[i], TMP_MASK)
            } else {
                s[i]
            },
    )
}

/// The grid after the unifying pass: every sentinel mask is replaced by
/// `to`; everything else is untouched.
pub open spec fn unify_masks(s: Seq<u32>, to: u32) -> Seq<u32> {
    Seq::new(
        s.len(),
        |i: int|
            if chan_mask(s[i]) == TMP_MASK {
                with_mask(s[i], to)
            } else {
                s[i]
            },
    )
}

/// The grid after a full erosion of the `tgt` mask: marking, then replacing
/// every sentinel mask by `dflt`.
pub open spec fn erode_spec(s: Seq<u32>, w: int, h: int, tgt: u32, dflt: u32) -> Seq<u32> {
    unify_masks(erode_marked(s, w, h, tgt), dflt)
}

/// The grid after a full dilation of the `tgt` mask: marking, then replacing
/// every sentinel mask by `tgt`.
pub open spec fn dilate_spec(s: Seq<u32>, w: int, h: int, tgt: u32) -> Seq<u32> {
    unify_masks(dilate_marked(s, w, h, tgt), tgt)
}

/// Replacing the mask channel keeps the three color channels and sets
/// exactly the mask.
pub proof fn lemma_with_mask_parts(w: u32, m: u32)
    requires
        m < 256,
    ensures
        chan_mask(with_mask(w, m)) == m,
        chan_a(with_mask(w, m)) == chan_a(w),
        chan_b(with_mask(w, m)) == chan_b(w),
        chan_c(with_mask(w, m)) == chan_c(w),
{
    assert((((w & 0xFFFF_FF00) | m) >> 0) & 0xFF == m && (((w & 0xFFFF_FF00) | m) >> 24) & 0xFF == (
    w >> 24) & 0xFF && (((w & 0xFFFF_FF00) | m) >> 16) & 0xFF == (w >> 16) & 0xFF && (((w
        & 0xFFFF_FF00) | m) >> 8) & 0xFF == (w >> 8) & 0xFF) by (bit_vector)
        requires
            m < 256,
    ;
}

/// Unpacking a word, overwriting the mask field, and repacking yields the
/// word with just its mask channel replaced.
pub proof fn lemma_set_mask_repack(w: u32, m: u32, x: usize, y: usize)
    requires
        m < 256,
    ensures
        pack_spec(
            Pixel { h: chan_a(w), s: chan_b(w), v: chan_c(w), mask: m, x, y },
        ) == with_mask(w, m),
{
    assert(((((w >> 24) & 0xFF) << 24) | (((w >> 16) & 0xFF) << 16) | (((w >> 8) & 0xFF) << 8) | (m
        << 0)) == ((w & 0xFFFF_FF00) | m)) by (bit_vector)
        requires
            m < 256,
    ;
}

/// An index of a `w`-by-`h` grid decomposes into a column below `w` and a
/// row below `h`.
pub proof fn lemma_index_coords_bound(w: int, h: int, i: int)
    requires
        1 <= w,
        0 <= i < w * h,
    ensures
        0 <= i % w < w,
        0 <= i / w < h,
{
    vstd::arithmetic::div_mod::lemma_mod_division_less_than_divisor(i, w);
    vstd::arithmetic::div_mod::lemma_multiply_divide_lt(i, w, h);
    vstd::arithmetic::div_mod::lemma_div_pos_is_pos(i, w);
}

/// Count how many of the nine pixels of the 3x3 neighborhood centered at
/// `(x, y)`, the center included, have a mask equal to `tgt` or to
/// `intermediate`.  The whole neighborhood must lie inside the image, so the
/// center must not touch the border.
/// 1 when the mask of the cell at `(x, y)` equals `tgt` or `sec`, else 0.
fn mask_hit(image: &Image, x: usize, y: usize, tgt: u32, sec: u32) -> (r: u32)
    requires
        image.wf(),
        x < image.width,
        y < image.height,
    ensures
        r == count1(mask_matches(cell(image.data@, image.width, x, y), tgt, sec)),
{
    let p = image.get(x, y);
    if p.mask == tgt || p.mask == sec {
        1
    } else {
        0
    }
}

pub fn check_adjacent(image: &Image, x: usize, y: usize, tgt: u32, intermediate: u32) -> (res:
    u32)
    requires
        image.wf(),
        1 <= x,
        x + 1 < image.width,
        1 <= y,
        y + 1 < image.height,
    ensures
        res == adjacent_count(
            image.data@,
            image.width as int,
            x as int,
            y as int,
            tgt,
            intermediate,
        ),
        res <= 9,
{
    let c00 = mask_hit(image, x - 1, y - 1, tgt, intermediate);
    let c01 = mask_hit(image, x, y - 1, tgt, intermediate);
    let c02 = mask_hit(image, x + 1, y - 1, tgt, intermediate);
    let c10 = mask_hit(image, x - 1, y, tgt, intermediate);
    let c11 = mask_hit(image, x, y, tgt, intermediate);
    let c12 = mask_hit(image, x + 1, y, tgt, intermediate);
    let c20 = mask_hit(image, x - 1, y + 1, tgt, intermediate);
    let c21 = mask_hit(image, x, y + 1, tgt, intermediate);
    let c22 = mask_hit(image, x + 1, y + 1, tgt, intermediate);
    c00 + c01 + c02 + c10 + c11 + c12 + c20 + c21 + c22
}

/// The pixel with a sentinel mask rewritten to `to`; any other pixel is
/// untouched.
pub open spec fn unify_pixel(p: Pixel, to: u32) -> Pixel {
    if p.mask == TMP_MASK {
        Pixel { h: p.h, s: p.s, v: p.v, mask: to, x: p.x, y: p.y }
    } else {
        p
    }
}

/// Rewriting the sentinel mask on the unpacked pixel and repacking acts on
/// the word exactly as `unify_masks` does on its cell.
proof fn lemma_unify_pixel_word(w: u32, to: u32, x: usize, y: usize)
    requires
        to < 256,
    ensures
        pack_spec(unify_pixel(unpack_spec(w, x, y), to)) == if chan_mask(w) == TMP_MASK {
            with_mask(w, to)
        } else {
            w
        },
{
    if chan_mask(w) == TMP_MASK {
        lemma_set_mask_repack(w, to, x, y);
    } else {
        crate::codec::lemma_pack_unpack(w, x, y);
    }
}

/// After every sentinel mask is replaced by a non-sentinel value, no cell's
/// mask equals the sentinel.
pub proof fn lemma_unify_no_sentinel(s: Seq<u32>, to: u32)
    requires
        to < 256,
        to != TMP_MASK,
    ensures
        forall|i: int|
            0 <= i < s.len() ==> chan_mask(#[trigger] unify_masks(s, to)[i]) != TMP_MASK,
{
    assert forall|i: int| 0 <= i < s.len() implies chan_mask(unify_masks(s, to)[i])
        != TMP_MASK by {
        if chan_mask(s[i]) == TMP_MASK {
            lemma_with_mask_parts(s[i], to);
        }
    }
}

/// Sweep the full image and replace every sentinel mask by `to`, leaving all
/// other cells untouched: the unifying second pass of a morphology
/// operation.
fn unify_pass(image: &mut Image, to: u32)
    requires
        old(image).wf(),
        to < 256,
    ensures
        final(image).wf(),
        final(image).width == old(image).width,
        final(image).height == old(image).height,
        final(image).space == old(image).space,
        final(image).data@ == unify_masks(old(image).data@, to),
{
    let un = |p: Pixel| -> (q: Pixel)
        requires
            p.byte_valid(),
        ensures
            q == unify_pixel(p, to),
            q.byte_valid(),
        {
            if p.mask == TMP_MASK {
                Pixel { h: p.h, s: p.s, v: p.v, mask: to, x: p.x, y: p.y }
            } else {
                p
            }
        };
    let ghost wd = image.width;
    let ghost ht = image.height;
    let ghost orig = image.data@;
    proof {
        lemma_grid_len(*image);
    }
    image.iter_pixels(un);
    proof {
        assert forall|i: int| 0 <= i < image.data@.len() implies image.data@[i] == unify_masks(
            orig,
            to,
        )[i] by {
            assert(image.data@.len() == wd as int * ht as int);
            if wd == 0 {
                assert(wd as int * ht as int == 0) by (nonlinear_arith)
                    requires
                        wd == 0,
                ;
            }
            lemma_index_coords_bound(wd as int, ht as int, i);
            let x = (i % wd as int) as usize;
            let y = (i / wd as int) as usize;
            vstd::arithmetic::div_mod::lemma_fundamental_div_mod(i, wd as int);
            vstd::arithmetic::mul::lemma_mul_is_commutative(wd as int, i / wd as int);
            assert(i == y as int * wd as int + x as int);
            assert(call_ensures(
                un,
                (unpack_spec(cell(orig, wd, x, y), x, y),),
                unpack_spec(cell(image.data@, wd, x, y), x, y),
            ));
            crate::codec::lemma_pack_unpack(cell(image.data@, wd, x, y), x, y);
            lemma_unify_pixel_word(cell(orig, wd, x, y), to, x, y);
        }
        assert(image.data@ =~= unify_masks(orig, to));
    }
}

/// One word-for-word copy of the packed storage, taken so that a marking
/// pass can read every neighbor as it stood before the pass began.
fn copy_words(v: &Vec<u32>) -> (r: Vec<u32>)
    ensures
        r@ == v@,
{
    let n: usize = v.len();
    let mut r: Vec<u32> = Vec::new();
    let mut i: usize = 0;
    while i < n
        invariant
            i <= n,
            n == v@.len(),
            r@.len() == i,
            forall|j: int| 0 <= j < i ==> r@[j] == v@[j],
        decreases n - i,
    {
        r.push(v[i]);
        i = i + 1;
    }
    proof {
        assert(r@ =~= v@);
    }
    r
}

/// Erode the `tgt` mask region by one pixel: every interior pixel whose 3x3
/// neighborhood is not made up entirely of `tgt` (or sentinel) masks has its
/// mask replaced by `default`.  Neighbor masks are read from a snapshot
/// taken before the pass, so the result does not depend on traversal order;
/// afterwards no cell carries the sentinel mask.  The caller must not pick
/// the sentinel as target or default mask.
pub fn erode(image: &mut Image, tgt: u32, default: u32)
    requires
        old(image).wf(),
        tgt < 256,
        tgt != TMP_MASK,
        default < 256,
        default != TMP_MASK,
    ensures
        final(image).wf(),
        final(image).width == old(image).width,
        final(image).height == old(image).height,
        final(image).space == old(image).space,
        final(image).data@ == erode_spec(
            old(image).data@,
            old(image).width as int,
            old(image).height as int,
            tgt,
            default,
        ),
        forall|i: int|
            0 <= i < final(image).data@.len() ==> chan_mask(#[trigger] final(image).data@[i])
                != TMP_MASK,
{
    let wd: usize = image.width;
    let ht: usize = image.height;
    let ghost orig = image.data@;
    let ghost sp = image.space;
    let ghost marked = erode_marked(orig, wd as int, ht as int, tgt);
    proof {
        lemma_grid_len(*image);
    }
    let snap_data = copy_words(&image.data);
    let snap = Image { width: wd, height: ht, space: image.space, data: snap_data };
    if wd >= 2 && ht >= 2 {
        let mut y: usize = 1;
        while y < ht - 1
            invariant
                image.wf(),
                image.width == wd,
                image.height == ht,
                image.space == sp,
                snap.wf(),
                snap.width == wd,
                snap.height == ht,
                snap.data@ == orig,
                wd >= 2,
                ht >= 2,
                1 <= y <= ht - 1,
                orig.len() == wd as int * ht as int,
                marked == erode_marked(orig, wd as int, ht as int, tgt),
                forall|i: int|
                    0 <= i < orig.len() ==> #[trigger] image.data@[i] == (if i / (wd as int) < y {
                        marked[i]
                    } else {
                        orig[i]
                    }),
            decreases ht - 1 - y,
        {
            let mut x: usize = 1;
            while x < wd - 1
                invariant
                    image.wf(),
                    image.width == wd,
                    image.height == ht,
                    image.space == sp,
                    snap.wf(),
                    snap.width == wd,
                    snap.height == ht,
                    snap.data@ == orig,
                    wd >= 2,
                    ht >= 2,
                    1 <= x <= wd - 1,
                    1 <= y < ht - 1,
                    orig.len() == wd as int * ht as int,
                    marked == erode_marked(orig, wd as int, ht as int, tgt),
                    forall|i: int|
                        0 <= i < orig.len() ==> #[trigger] image.data@[i] == (if i / (wd as int)
                            < y || (i / (wd as int) == y && i % (wd as int) < x) {
                            marked[i]
                        } else {
                            orig[i]
                        }),
                decreases wd - 1 - x,
            {
                let cnt = check_adjacent(&snap, x, y, tgt, TMP_MASK);
                let ghost idx = y as int * wd as int + x as int;
                let ghost before = image.data@;
                proof {
                    lemma_index_in_grid(wd as int, ht as int, x as int, y as int);
                    lemma_index_to_coords(wd as int, x as int, y as int);
                    assert(before[idx] == orig[idx]);
                }
                if cnt != 9 {
                    let mut p = image.get(x, y);
                    p.mask = TMP_MASK;
                    image.set(&p);
                    proof {
                        lemma_set_mask_repack(orig[idx], TMP_MASK, x, y);
                        assert(image.data@[idx] == with_mask(orig[idx], TMP_MASK));
                        assert(interior_index(wd as int, ht as int, idx));
                        assert(marked[idx] == with_mask(orig[idx], TMP_MASK));
                    }
                } else {
                    proof {
                        assert(marked[idx] == orig[idx]);
                    }
                }
                proof {
                    assert forall|i: int| 0 <= i < orig.len() implies image.data@[i] == (if i / (
                    wd as int) < y || (i / (wd as int) == y && i % (wd as int) < x + 1) {
                        marked[i]
                    } else {
                        orig[i]
                    }) by {
                        vstd::arithmetic::div_mod::lemma_fundamental_div_mod(i, wd as int);
                        vstd::arithmetic::mul::lemma_mul_is_commutative(wd as int, i / (wd as int));
                        if i != idx {
                            assert(image.data@[i] == before[i]);
                        }
                    }
                }
                x = x + 1;
            }
            proof {
                assert forall|i: int| 0 <= i < orig.len() implies image.data@[i] == (if i / (
                wd as int) < y + 1 {
                    marked[i]
                } else {
                    orig[i]
                }) by {
                    lemma_index_coords_bound(wd as int, ht as int, i);
                }
            }
            y = y + 1;
        }
        proof {
            assert forall|i: int| 0 <= i < orig.len() implies image.data@[i] == marked[i] by {
                lemma_index_coords_bound(wd as int, ht as int, i);
            }
        }
    } else {
        proof {
            assert forall|i: int| 0 <= i < orig.len() implies image.data@[i] == marked[i] by {
                if wd == 0 || ht == 0 {
                    assert(wd as int * ht as int == 0) by (nonlinear_arith)
                        requires
                            wd == 0 || ht == 0,
                    ;
                } else {
                    lemma_index_coords_bound(wd as int, ht as int, i);
                }
            }
        }
    }
    proof {
        assert(image.data@ =~= marked);
    }
    unify_pass(image, default);
    proof {
        lemma_unify_no_sentinel(marked, default);
    }
}

/// Dilate the `tgt` mask region by one pixel: every interior pixel whose
/// mask is not yet `tgt` but which touches at least one `tgt` mask in its
/// 3x3 neighborhood has its mask replaced by `tgt`.  Neighbor masks are read
/// from a snapshot taken before the pass, so the result does not depend on
/// traversal order; afterwards no cell carries the sentinel mask.  The
/// caller must not pick the sentinel as target mask.
pub fn dilate(image: &mut Image, tgt: u32)
    requires
        old(image).wf(),
        tgt < 256,
        tgt != TMP_MASK,
    ensures
        final(image).wf(),
        final(image).width == old(image).width,
        final(image).height == old(image).height,
        final(image).space == old(image).space,
        final(image).data@ == dilate_spec(
            old(image).data@,
            old(image).width as int,
            old(image).height as int,
            tgt,
        ),
        forall|i: int|
            0 <= i < final(image).data@.len() ==> chan_mask(#[trigger] final(image).data@[i])
                != TMP_MASK,
{
    let wd: usize = image.width;
    let ht: usize = image.height;
    let ghost orig = image.data@;
    let ghost sp = image.space;
    let ghost marked = dilate_marked(orig, wd as int, ht as int, tgt);
    proof {
        lemma_grid_len(*image);
    }
    let snap_data = copy_words(&image.data);
    let snap = Image { width: wd, height: ht, space: image.space, data: snap_data };
    if wd >= 2 && ht >= 2 {
        let mut y: usize = 1;
        while y < ht - 1
            invariant
                image.wf(),
                image.width == wd,
                image.height == ht,
                image.space == sp,
                snap.wf(),
                snap.width == wd,
                snap.height == ht,
                snap.data@ == orig,
                wd >= 2,
                ht >= 2,
                1 <= y <= ht - 1,
                orig.len() == wd as int * ht as int,
                marked == dilate_marked(orig, wd as int, ht as int, tgt),
                forall|i: int|
                    0 <= i < orig.len() ==> #[trigger] image.data@[i] == (if i / (wd as int) < y {
                        marked[i]
                    } else {
                        orig[i]
                    }),
            decreases ht - 1 - y,
        {
            let mut x: usize = 1;
            while x < wd - 1
                invariant
                    image.wf(),
                    image.width == wd,
                    image.height == ht,
                    image.space == sp,
                    snap.wf(),
                    snap.width == wd,
                    snap.height == ht,
                    snap.data@ == orig,
                    wd >= 2,
                    ht >= 2,
                    1 <= x <= wd - 1,
                    1 <= y < ht - 1,
                    orig.len() == wd as int * ht as int,
                    marked == dilate_marked(orig, wd as int, ht as int, tgt),
                    forall|i: int|
                        0 <= i < orig.len() ==> #[trigger] image.data@[i] == (if i / (wd as int)
                            < y || (i / (wd as int) == y && i % (wd as int) < x) {
                            marked[i]
                        } else {
                            orig[i]
                        }),
                decreases wd - 1 - x,
            {
                let cnt = check_adjacent(&snap, x, y, tgt, tgt);
                let ghost idx = y as int * wd as int + x as int;
                let ghost before = image.data@;
                proof {
                    lemma_index_in_grid(wd as int, ht as int, x as int, y as int);
                    lemma_index_to_coords(wd as int, x as int, y as int);
                    assert(before[idx] == orig[idx]);
                }
                let mut p = image.get(x, y);
                if cnt > 0 && p.mask != tgt {
                    p.mask = TMP_MASK;
                    image.set(&p);
                    proof {
                        lemma_set_mask_repack(orig[idx], TMP_MASK, x, y);
                        assert(image.data@[idx] == with_mask(orig[idx], TMP_MASK));
                        assert(interior_index(wd as int, ht as int, idx));
                        assert(chan_mask(orig[idx]) != tgt);
                        assert(marked[idx] == with_mask(orig[idx], TMP_MASK));
                    }
                } else {
                    proof {
                        assert(marked[idx] == orig[idx]);
                    }
                }
                proof {
                    assert forall|i: int| 0 <= i < orig.len() implies image.data@[i] == (if i / (
                    wd as int) < y || (i / (wd as int) == y && i % (wd as int) < x + 1) {
                        marked[i]
                    } else {
                        orig[i]
                    }) by {
                        vstd::arithmetic::div_mod::lemma_fundamental_div_mod(i, wd as int);
                        vstd::arithmetic::mul::lemma_mul_is_commutative(wd as int, i / (wd as int));
                        if i != idx {
                            assert(image.data@[i] == before[i]);
                        }
                    }
                }
                x = x + 1;
            }
            proof {
                assert forall|i: int| 0 <= i < orig.len() implies image.data@[i] == (if i / (
                wd as int) < y + 1 {
                    marked[i]
                } else {
                    orig[i]
                }) by {
                    lemma_index_coords_bound(wd as int, ht as int, i);
                }
            }
            y = y + 1;
        }
        proof {
            assert forall|i: int| 0 <= i < orig.len() implies image.data@[i] == marked[i] by {
                lemma_index_coords_bound(wd as int, ht as int, i);
            }
        }
    } else {
        proof {
            assert forall|i: int| 0 <= i < orig.len() implies image.data@[i] == marked[i] by {
                if wd == 0 || ht == 0 {
                    assert(wd as int * ht as int == 0) by (nonlinear_arith)
                        requires
                            wd == 0 || ht == 0,
                    ;
                } else {
                    lemma_index_coords_bound(wd as int, ht as int, i);
                }
            }
        }
    }
    proof {
        assert(image.data@ =~= marked);
    }
    unify_pass(image, tgt);
    proof {
        lemma_unify_no_sentinel(marked, tgt);
    }
}

/// The coordinate `(x, y)` lies in the axis-aligned rectangle with corners
/// `(x0, y0)` and `(x1, y1)`, both inclusive.
pub open spec fn in_rect(x0: int, x1: int, y0: int, y1: int, x: int, y: int) -> bool {
    x0 <= x <= x1 && y0 <= y <= y1
}

/// The mask of a cell named by its coordinates, under a rectangular mask
/// pattern stated over indices.
proof fn lemma_mask_at(
    s: Seq<u32>,
    w: int,
    h: int,
    x0: int,
    x1: int,
    y0: int,
    y1: int,
    tgt: u32,
    dflt: u32,
    x: int,
    y: int,
)
    requires
        s.len() == w * h,
        0 <= x < w,
        0 <= y < h,
        forall|i: int|
            0 <= i < s.len() ==> chan_mask(#[trigger] s[i]) == (if in_rect(
                x0,
                x1,
                y0,
                y1,
                i % w,
                i / w,
            ) {
                tgt
            } else {
                dflt
            }),
    ensures
        0 <= y * w + x < s.len(),
        chan_mask(s[y * w + x]) == (if in_rect(x0, x1, y0, y1, x, y) {
            tgt
        } else {
            dflt
        }),
{
    lemma_index_in_grid(w, h, x, y);
    lemma_index_to_coords(w, x, y);
}

/// Erosion leaves a pixel alone wherever its whole 3x3 neighborhood,
/// border neighbors included, already carries the target mask.
pub proof fn lemma_erode_uniform_pixel(
    s: Seq<u32>,
    w: int,
    h: int,
    tgt: u32,
    dflt: u32,
    x: int,
    y: int,
)
    requires
        s.len() == w * h,
        tgt < 256,
        tgt != TMP_MASK,
        dflt < 256,
        dflt != TMP_MASK,
        1 <= x < w - 1,
        1 <= y < h - 1,
        chan_mask(s[(y - 1) * w + (x - 1)]) == tgt,
        chan_mask(s[(y - 1) * w + x]) == tgt,
        chan_mask(s[(y - 1) * w + (x + 1)]) == tgt,
        chan_mask(s[y * w + (x - 1)]) == tgt,
        chan_mask(s[y * w + x]) == tgt,
        chan_mask(s[y * w + (x + 1)]) == tgt,
        chan_mask(s[(y + 1) * w + (x - 1)]) == tgt,
        chan_mask(s[(y + 1) * w + x]) == tgt,
        chan_mask(s[(y + 1) * w + (x + 1)]) == tgt,
    ensures
        erode_spec(s, w, h, tgt, dflt)[y * w + x] == s[y * w + x],
{
    let i = y * w + x;
    lemma_index_in_grid(w, h, x, y);
    lemma_index_to_coords(w, x, y);
    assert(adjacent_count(s, w, x, y, tgt, TMP_MASK) == 9);
    assert(erode_marked(s, w, h, tgt)[i] == s[i]);
}

/// Erosion of a mask-uniform image changes nothing: when every cell already
/// carries the target mask, the eroded image equals the original.
pub proof fn lemma_erode_uniform(s: Seq<u32>, w: int, h: int, tgt: u32, dflt: u32)
    requires
        s.len() == w * h,
        0 <= w,
        0 <= h,
        tgt < 256,
        tgt != TMP_MASK,
        dflt < 256,
        dflt != TMP_MASK,
        forall|i: int| 0 <= i < s.len() ==> chan_mask(#[trigger] s[i]) == tgt,
    ensures
        erode_spec(s, w, h, tgt, dflt) == s,
{
    assert forall|i: int| 0 <= i < s.len() implies erode_spec(s, w, h, tgt, dflt)[i] == s[i] by {
        if w == 0 || h == 0 {
            assert(w * h == 0) by (nonlinear_arith)
                requires
                    w == 0 || h == 0,
            ;
        } else {
            lemma_index_coords_bound(w, h, i);
            let x = i % w;
            let y = i / w;
            if interior_index(w, h, i) {
                lemma_index_in_grid(w, h, x - 1, y - 1);
                lemma_index_in_grid(w, h, x, y - 1);
                lemma_index_in_grid(w, h, x + 1, y - 1);
                lemma_index_in_grid(w, h, x - 1, y);
                lemma_index_in_grid(w, h, x, y);
                lemma_index_in_grid(w, h, x + 1, y);
                lemma_index_in_grid(w, h, x - 1, y + 1);
                lemma_index_in_grid(w, h, x, y + 1);
                lemma_index_in_grid(w, h, x + 1, y + 1);
                assert(adjacent_count(s, w, x, y, tgt, TMP_MASK) == 9);
            }
            assert(erode_marked(s, w, h, tgt)[i] == s[i]);
        }
    }
    assert(erode_spec(s, w, h, tgt, dflt) =~= s);
}

/// Erosion shrinks a solid block by exactly its border ring: on an image
/// whose masks are `tgt` exactly on a rectangle lying strictly inside the
/// border-exclusive region and `dflt` everywhere else, one erosion leaves
/// the masks `tgt` exactly on the rectangle shrunk by one on every side.
pub proof fn lemma_erode_block(
    s: Seq<u32>,
    w: int,
    h: int,
    tgt: u32,
    dflt: u32,
    x0: int,
    x1: int,
    y0: int,
    y1: int,
)
    requires
        s.len() == w * h,
        tgt < 256,
        tgt != TMP_MASK,
        dflt < 256,
        dflt != TMP_MASK,
        tgt != dflt,
        1 <= x0 <= x1 <= w - 2,
        1 <= y0 <= y1 <= h - 2,
        forall|i: int|
            0 <= i < s.len() ==> chan_mask(#[trigger] s[i]) == (if in_rect(
                x0,
                x1,
                y0,
                y1,
                i % w,
                i / w,
            ) {
                tgt
            } else {
                dflt
            }),
    ensures
        forall|i: int|
            0 <= i < s.len() ==> chan_mask(#[trigger] erode_spec(s, w, h, tgt, dflt)[i]) == (
            if in_rect(x0 + 1, x1 - 1, y0 + 1, y1 - 1, i % w, i / w) {
                tgt
            } else {
                dflt
            }),
{
    assert forall|i: int| 0 <= i < s.len() implies chan_mask(
        #[trigger] erode_spec(s, w, h, tgt, dflt)[i],
    ) == (if in_rect(x0 + 1, x1 - 1, y0 + 1, y1 - 1, i % w, i / w) {
        tgt
    } else {
        dflt
    }) by {
        lemma_index_coords_bound(w, h, i);
        let x = i % w;
        let y = i / w;
        vstd::arithmetic::div_mod::lemma_fundamental_div_mod(i, w);
        vstd::arithmetic::mul::lemma_mul_is_commutative(w, y);
        assert(i == y * w + x);
        if in_rect(x0 + 1, x1 - 1, y0 + 1, y1 - 1, x, y) {
            // every neighbor lies in the block, so the count is full
            lemma_mask_at(s, w, h, x0, x1, y0, y1, tgt, dflt, x - 1, y - 1);
            lemma_mask_at(s, w, h, x0, x1, y0, y1, tgt, dflt, x, y - 1);
            lemma_mask_at(s, w, h, x0, x1, y0, y1, tgt, dflt, x + 1, y - 1);
            lemma_mask_at(s, w, h, x0, x1, y0, y1, tgt, dflt, x - 1, y);
            lemma_mask_at(s, w, h, x0, x1, y0, y1, tgt, dflt, x, y);
            lemma_mask_at(s, w, h, x0, x1, y0, y1, tgt, dflt, x + 1, y);
            lemma_mask_at(s, w, h, x0, x1, y0, y1, tgt, dflt, x - 1, y + 1);
            lemma_mask_at(s, w, h, x0, x1, y0, y1, tgt, dflt, x, y + 1);
            lemma_mask_at(s, w, h, x0, x1, y0, y1, tgt, dflt, x + 1, y + 1);
            assert(adjacent_count(s, w, x, y, tgt, TMP_MASK) == 9);
            assert(erode_marked(s, w, h, tgt)[i] == s[i]);
            assert(chan_mask(s[i]) == tgt);
        } else if in_rect(x0, x1, y0, y1, x, y) {
            // on the block's boundary ring: some neighbor is outside the
            // block, so the count falls short and the cell is marked
            lemma_mask_at(s, w, h, x0, x1, y0, y1, tgt, dflt, x, y);
            if x == x0 {
                lemma_mask_at(s, w, h, x0, x1, y0, y1, tgt, dflt, x - 1, y);
                assert(count1(mask_matches(s[y * w + (x - 1)], tgt, TMP_MASK)) == 0);
            } else if x == x1 {
                lemma_mask_at(s, w, h, x0, x1, y0, y1, tgt, dflt, x + 1, y);
                assert(count1(mask_matches(s[y * w + (x + 1)], tgt, TMP_MASK)) == 0);
            } else if y == y0 {
                lemma_mask_at(s, w, h, x0, x1, y0, y1, tgt, dflt, x, y - 1);
                assert(count1(mask_matches(s[(y - 1) * w + x], tgt, TMP_MASK)) == 0);
            } else {
                lemma_mask_at(s, w, h, x0, x1, y0, y1, tgt, dflt, x, y + 1);
                assert(count1(mask_matches(s[(y + 1) * w + x], tgt, TMP_MASK)) == 0);
            }
            assert(adjacent_count(s, w, x, y, tgt, TMP_MASK) <= 8);
            assert(interior_index(w, h, i));
            assert(erode_marked(s, w, h, tgt)[i] == with_mask(s[i], TMP_MASK));
            lemma_with_mask_parts(s[i], TMP_MASK);
            lemma_with_mask_parts(with_mask(s[i], TMP_MASK), dflt);
        } else {
            // outside the block
            lemma_mask_at(s, w, h, x0, x1, y0, y1, tgt, dflt, x, y);
            assert(chan_mask(s[i]) == dflt);
            if interior_index(w, h, i) {
                assert(count1(mask_matches(s[y * w + x], tgt, TMP_MASK)) == 0);
                assert(adjacent_count(s, w, x, y, tgt, TMP_MASK) <= 8);
                assert(erode_marked(s, w, h, tgt)[i] == with_mask(s[i], TMP_MASK));
                lemma_with_mask_parts(s[i], TMP_MASK);
                lemma_with_mask_parts(with_mask(s[i], TMP_MASK), dflt);
            } else {
                assert(erode_marked(s, w, h, tgt)[i] == s[i]);
            }
        }
    }
}

/// Dilation grows a solid block by exactly one surrounding ring: on an
/// image whose masks are `tgt` exactly on a rectangle lying two cells away
/// from every image edge and `dflt` everywhere else, one dilation leaves
/// the masks `tgt` exactly on the rectangle grown by one on every side.
pub proof fn lemma_dilate_block(
    s: Seq<u32>,
    w: int,
    h: int,
    tgt: u32,
    dflt: u32,
    x0: int,
    x1: int,
    y0: int,
    y1: int,
)
    requires
        s.len() == w * h,
        tgt < 256,
        tgt != TMP_MASK,
        dflt < 256,
        dflt != TMP_MASK,
        tgt != dflt,
        2 <= x0 <= x1 <= w - 3,
        2 <= y0 <= y1 <= h - 3,
        forall|i: int|
            0 <= i < s.len() ==> chan_mask(#[trigger] s[i]) == (if in_rect(
                x0,
                x1,
                y0,
                y1,
                i % w,
                i / w,
            ) {
                tgt
            } else {
                dflt
            }),
    ensures
        forall|i: int|
            0 <= i < s.len() ==> chan_mask(#[trigger] dilate_spec(s, w, h, tgt)[i]) == (if in_rect(
                x0 - 1,
                x1 + 1,
                y0 - 1,
                y1 + 1,
                i % w,
                i / w,
            ) {
                tgt
            } else {
                dflt
            }),
{
    assert forall|i: int| 0 <= i < s.len() implies chan_mask(
        #[trigger] dilate_spec(s, w, h, tgt)[i],
    ) == (if in_rect(x0 - 1, x1 + 1, y0 - 1, y1 + 1, i % w, i / w) {
        tgt
    } else {
        dflt
    }) by {
        lemma_index_coords_bound(w, h, i);
        let x = i % w;
        let y = i / w;
        vstd::arithmetic::div_mod::lemma_fundamental_div_mod(i, w);
        vstd::arithmetic::mul::lemma_mul_is_commutative(w, y);
        assert(i == y * w + x);
        lemma_mask_at(s, w, h, x0, x1, y0, y1, tgt, dflt, x, y);
        if in_rect(x0, x1, y0, y1, x, y) {
            // already target: the not-equal guard leaves the cell unmarked
            assert(chan_mask(s[i]) == tgt);
            assert(dilate_marked(s, w, h, tgt)[i] == s[i]);
        } else if in_rect(x0 - 1, x1 + 1, y0 - 1, y1 + 1, x, y) {
            // the ring around the block: some neighbor lies in the block
            let nx = if x < x0 {
                x + 1
            } else if x > x1 {
                x - 1
            } else {
                x
            };
            let ny = if y < y0 {
                y + 1
            } else if y > y1 {
                y - 1
            } else {
                y
            };
            lemma_mask_at(s, w, h, x0, x1, y0, y1, tgt, dflt, nx, ny);
            assert(in_rect(x0, x1, y0, y1, nx, ny));
            assert(chan_mask(s[ny * w + nx]) == tgt);
            assert(adjacent_count(s, w, x, y, tgt, tgt) > 0);
            assert(interior_index(w, h, i));
            assert(dilate_marked(s, w, h, tgt)[i] == with_mask(s[i], TMP_MASK));
            lemma_with_mask_parts(s[i], TMP_MASK);
            lemma_with_mask_parts(with_mask(s[i], TMP_MASK), tgt);
        } else {
            // two or more cells away from the block: no neighbor is target
            assert(chan_mask(s[i]) == dflt);
            if interior_index(w, h, i) {
                lemma_mask_at(s, w, h, x0, x1, y0, y1, tgt, dflt, x - 1, y - 1);
                lemma_mask_at(s, w, h, x0, x1, y0, y1, tgt, dflt, x, y - 1);
                lemma_mask_at(s, w, h, x0, x1, y0, y1, tgt, dflt, x + 1, y - 1);
                lemma_mask_at(s, w, h, x0, x1, y0, y1, tgt, dflt, x - 1, y);
                lemma_mask_at(s, w, h, x0, x1, y0, y1, tgt, dflt, x + 1, y);
                lemma_mask_at(s, w, h, x0, x1, y0, y1, tgt, dflt, x - 1, y + 1);
                lemma_mask_at(s, w, h, x0, x1, y0, y1, tgt, dflt, x, y + 1);
                lemma_mask_at(s, w, h, x0, x1, y0, y1, tgt, dflt, x + 1, y + 1);
                assert(adjacent_count(s, w, x, y, tgt, tgt) == 0);
                assert(dilate_marked(s, w, h, tgt)[i] == s[i]);
            } else {
                assert(dilate_marked(s, w, h, tgt)[i] == s[i]);
            }
        }
    }
}

} // verus!

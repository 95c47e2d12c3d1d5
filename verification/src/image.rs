//! Image access and traversal: bounds-checked get/set of single pixels, and
//! traversal primitives that visit cells in row-major order under the
//! read-unpack -> transform -> pack-write discipline.

use vstd::pervasive::VecAdditionalExecFns;
use vstd::prelude::*;

use crate::codec::{lemma_pack_unpack, lemma_unpack_pack, pack, pack_spec, unpack, unpack_spec};
use crate::convert::{hsv_to_rgb, hsv_to_rgb_spec, rgb_to_hsv, rgb_to_hsv_spec};
use crate::types::{
    cell, lemma_grid_len, lemma_index_in_grid, lemma_index_injective, ColorSpace, Image, Pixel,
};

verus! {

impl Image {
    /// Create an image of the given dimensions with every packed word zero,
    /// tagged as RGB.
    pub fn new(width: usize, height: usize) -> (img: Image)
        requires
            width * height <= usize::MAX,
        ensures
            img.wf(),
            img.width == width,
            img.height == height,
            img.space == ColorSpace::RGB,
            forall|i: int| 0 <= i < img.data@.len() ==> img.data@[i] == 0u32,
    {
        let n: usize = width * height;
        let mut data: Vec<u32> = Vec::new();
        let mut i: usize = 0;
        while i < n
            invariant
                i <= n,
                data@.len() == i,
                forall|j: int| 0 <= j < i ==> data@[j] == 0u32,
            decreases n - i,
        {
            data.push(0);
            i = i + 1;
        }
        Image { width, height, space: ColorSpace::RGB, data }
    }

    /// Create an image of the given dimensions around caller-supplied packed
    /// data, one word per cell.
    pub fn from_data(width: usize, height: usize, space: ColorSpace, data: Vec<u32>) -> (img:
        Image)
        requires
            data@.len() == width * height,
        ensures
            img.wf(),
            img.width == width,
            img.height == height,
            img.space == space,
            img.data@ == data@,
    {
        Image { width, height, space, data }
    }

    /// Read and unpack the pixel at `(x, y)`.  Out-of-range coordinates are
    /// a contract violation, not a recoverable error.
    pub fn get(&self, x: usize, y: usize) -> (p: Pixel)
        requires
            self.wf(),
            x < self.width,
            y < self.height,
        ensures
            p == unpack_spec(cell(self.data@, self.width, x, y), x, y),
            p.byte_valid(),
            p.x == x,
            p.y == y,
    {
        proof {
            lemma_grid_len(*self);
            lemma_index_in_grid(self.width as int, self.height as int, x as int, y as int);
        }
        let idx: usize = y * self.width + x;
        let packed: u32 = self.data[idx];
        unpack(packed, x, y)
    }

    /// Pack a pixel and store it at the pixel's own coordinate.  The
    /// coordinate must be in range and every channel field must fit in 8
    /// bits; either failure is a contract violation.
    pub fn set(&mut self, input: &Pixel)
        requires
            old(self).wf(),
            input.x < old(self).width,
            input.y < old(self).height,
            input.byte_valid(),
        ensures
            final(self).wf(),
            final(self).width == old(self).width,
            final(self).height == old(self).height,
            final(self).space == old(self).space,
            final(self).data@ == old(self).data@.update(
                input.y as int * old(self).width as int + input.x as int,
                pack_spec(*input),
            ),
    {
        proof {
            lemma_grid_len(*self);
            lemma_index_in_grid(
                self.width as int,
                self.height as int,
                input.x as int,
                input.y as int,
            );
        }
        let idx: usize = input.y * self.width + input.x;
        let packed: u32 = pack(input);
        self.data.set(idx, packed);
    }

    /// Visit every cell of the image in row-major order, exactly once each:
    /// unpack the cell's word, hand the pixel to `f`, and pack `f`'s result
    /// back into the same cell.  `f` must accept every in-range pixel with
    /// byte-sized channels, and must return pixels with byte-sized channels
    /// and an unchanged coordinate.
    pub fn iter_pixels<F: Fn(Pixel) -> Pixel>(&mut self, f: F)
        requires
            old(self).wf(),
            forall|p: Pixel|
                (p.byte_valid() && p.x < old(self).width && p.y < old(self).height)
                    ==> #[trigger] call_requires(f, (p,)),
            forall|p: Pixel, q: Pixel|
                (p.byte_valid() && p.x < old(self).width && p.y < old(self).height
                    && #[trigger] call_ensures(f, (p,), q)) ==> (q.byte_valid() && q.x == p.x
                    && q.y == p.y),
        ensures
            final(self).wf(),
            final(self).width == old(self).width,
            final(self).height == old(self).height,
            final(self).space == old(self).space,
            forall|x: usize, y: usize|
                (x < old(self).width && y < old(self).height) ==> call_ensures(
                    f,
                    (unpack_spec(cell(old(self).data@, old(self).width, x, y), x, y),),
                    unpack_spec(
                        #[trigger] cell(final(self).data@, old(self).width, x, y),
                        x,
                        y,
                    ),
                ),
    {
        let wd: usize = self.width;
        let ht: usize = self.height;
        let ghost orig = self.data@;
        let ghost sp = self.space;
        let mut y: usize = 0;
        while y < ht
            invariant
                self.wf(),
                self.width == wd,
                self.height == ht,
                self.space == sp,
                y <= ht,
                forall|p: Pixel|
                    (p.byte_valid() && p.x < wd && p.y < ht) ==> #[trigger] call_requires(
                        f,
                        (p,),
                    ),
                forall|p: Pixel, q: Pixel|
                    (p.byte_valid() && p.x < wd && p.y < ht && #[trigger] call_ensures(
                        f,
                        (p,),
                        q,
                    )) ==> (q.byte_valid() && q.x == p.x && q.y == p.y),
                forall|x2: usize, y2: usize|
                    (x2 < wd && y2 < y) ==> call_ensures(
                        f,
                        (unpack_spec(cell(orig, wd, x2, y2), x2, y2),),
                        unpack_spec(#[trigger] cell(self.data@, wd, x2, y2), x2, y2),
                    ),
                forall|x2: usize, y2: usize|
                    (x2 < wd && y <= y2 && y2 < ht) ==> #[trigger] cell(self.data@, wd, x2, y2)
                        == cell(orig, wd, x2, y2),
            decreases ht - y,
        {
            let mut x: usize = 0;
            while x < wd
                invariant
                    self.wf(),
                    self.width == wd,
                    self.height == ht,
                    self.space == sp,
                    x <= wd,
                    y < ht,
                    forall|p: Pixel|
                        (p.byte_valid() && p.x < wd && p.y < ht) ==> #[trigger] call_requires(
                            f,
                            (p,),
                        ),
                    forall|p: Pixel, q: Pixel|
                        (p.byte_valid() && p.x < wd && p.y < ht && #[trigger] call_ensures(
                            f,
                            (p,),
                            q,
                        )) ==> (q.byte_valid() && q.x == p.x && q.y == p.y),
                    forall|x2: usize, y2: usize|
                        (x2 < wd && y2 < ht && (y2 < y || (y2 == y && x2 < x))) ==> call_ensures(
                            f,
                            (unpack_spec(cell(orig, wd, x2, y2), x2, y2),),
                            unpack_spec(#[trigger] cell(self.data@, wd, x2, y2), x2, y2),
                        ),
                    forall|x2: usize, y2: usize|
                        (x2 < wd && y2 < ht && (y2 > y || (y2 == y && x2 >= x))) ==> #[trigger] cell(
                            self.data@,
                            wd,
                            x2,
                            y2,
                        ) == cell(orig, wd, x2, y2),
                decreases wd - x,
            {
                let p = self.get(x, y);
                let ghost before = self.data@;
                let q = f(p);
                self.set(&q);
                proof {
                    lemma_index_in_grid(wd as int, ht as int, x as int, y as int);
                    lemma_unpack_pack(q);
                    assert(cell(self.data@, wd, x, y) == pack_spec(q));
                    assert(unpack_spec(cell(self.data@, wd, x, y), x, y) == q);
                    assert(p == unpack_spec(cell(orig, wd, x, y), x, y));
                    assert forall|x2: usize, y2: usize|
                        (x2 < wd && y2 < ht && (y2 < y || (y2 == y && x2 < x + 1))) implies
                        call_ensures(
                        f,
                        (unpack_spec(cell(orig, wd, x2, y2), x2, y2),),
                        unpack_spec(cell(self.data@, wd, x2, y2), x2, y2),
                    ) by {
                        lemma_index_in_grid(wd as int, ht as int, x2 as int, y2 as int);
                        if !(x2 == x && y2 == y) {
                            if y2 as int * wd as int + x2 as int == y as int * wd as int
                                + x as int {
                                lemma_index_injective(
                                    wd as int,
                                    x2 as int,
                                    y2 as int,
                                    x as int,
                                    y as int,
                                );
                            }
                            assert(cell(self.data@, wd, x2, y2) == cell(before, wd, x2, y2));
                            assert(call_ensures(
                                f,
                                (unpack_spec(cell(orig, wd, x2, y2), x2, y2),),
                                unpack_spec(cell(before, wd, x2, y2), x2, y2),
                            ));
                        }
                    }
                    assert forall|x2: usize, y2: usize|
                        (x2 < wd && y2 < ht && (y2 > y || (y2 == y && x2 >= x + 1))) implies cell(
                        self.data@,
                        wd,
                        x2,
                        y2,
                    ) == cell(orig, wd, x2, y2) by {
                        lemma_index_in_grid(wd as int, ht as int, x2 as int, y2 as int);
                        if y2 as int * wd as int + x2 as int == y as int * wd as int + x as int {
                            lemma_index_injective(
                                wd as int,
                                x2 as int,
                                y2 as int,
                                x as int,
                                y as int,
                            );
                        }
                        assert(cell(before, wd, x2, y2) == cell(orig, wd, x2, y2));
                    }
                }
                x = x + 1;
            }
            y = y + 1;
        }
    }
}

/// The cell `(x, y)` lies in the border-exclusive region of a `wd` by `ht`
/// grid: at least `border` cells away from every edge.
pub open spec fn in_interior(wd: usize, ht: usize, border: usize, x: usize, y: usize) -> bool {
    border <= x && x + border < wd && border <= y && y + border < ht
}

impl Image {
    /// Visit every cell of the border-exclusive region in row-major order,
    /// exactly once each, handing `f` the unpacked pixel together with
    /// read access to the image itself, and packing `f`'s result back into
    /// the same cell.  Because the image is being rewritten during the pass,
    /// the image `f` observes is some well-formed image of the same
    /// dimensions, not necessarily the image as it stood at the start: a
    /// callback that needs snapshot semantics must not rely on cells already
    /// visited.  Cells outside the region are untouched.
    pub fn iter_borrow<F: Fn(Pixel, &Image) -> Pixel>(&mut self, f: F, border: usize)
        requires
            old(self).wf(),
            border <= old(self).width,
            border <= old(self).height,
            forall|p: Pixel, m: Image|
                (p.byte_valid() && in_interior(old(self).width, old(self).height, border, p.x, p.y)
                    && m.wf() && m.width == old(self).width && m.height == old(self).height)
                    ==> #[trigger] call_requires(f, (p, &m)),
            forall|p: Pixel, m: &Image, q: Pixel|
                (p.byte_valid() && in_interior(old(self).width, old(self).height, border, p.x, p.y)
                    && #[trigger] call_ensures(f, (p, m), q)) ==> (q.byte_valid() && q.x == p.x
                    && q.y == p.y),
        ensures
            final(self).wf(),
            final(self).width == old(self).width,
            final(self).height == old(self).height,
            final(self).space == old(self).space,
            forall|x: usize, y: usize|
                in_interior(old(self).width, old(self).height, border, x, y) ==> exists|m: Image|
                    m.wf() && m.width == old(self).width && m.height == old(self).height
                        && #[trigger] call_ensures(
                        f,
                        (unpack_spec(cell(old(self).data@, old(self).width, x, y), x, y), &m),
                        unpack_spec(cell(final(self).data@, old(self).width, x, y), x, y),
                    ),
            forall|x: usize, y: usize|
                (x < old(self).width && y < old(self).height && !in_interior(
                    old(self).width,
                    old(self).height,
                    border,
                    x,
                    y,
                )) ==> #[trigger] cell(final(self).data@, old(self).width, x, y) == cell(
                    old(self).data@,
                    old(self).width,
                    x,
                    y,
                ),
    {
        let wd: usize = self.width;
        let ht: usize = self.height;
        let ghost orig = self.data@;
        let ghost sp = self.space;
        let y_hi: usize = ht - border;
        let x_hi: usize = wd - border;
        let mut y: usize = border;
        while y < y_hi
            invariant
                self.wf(),
                self.width == wd,
                self.height == ht,
                self.space == sp,
                border <= y <= y_hi || y == border,
                y_hi == ht - border,
                x_hi == wd - border,
                border <= wd,
                border <= ht,
                forall|p: Pixel, m: Image|
                    (p.byte_valid() && in_interior(wd, ht, border, p.x, p.y) && m.wf() && m.width
                        == wd && m.height == ht) ==> #[trigger] call_requires(f, (p, &m)),
                forall|p: Pixel, m: &Image, q: Pixel|
                    (p.byte_valid() && in_interior(wd, ht, border, p.x, p.y)
                        && #[trigger] call_ensures(f, (p, m), q)) ==> (q.byte_valid() && q.x == p.x
                        && q.y == p.y),
                forall|x2: usize, y2: usize|
                    (in_interior(wd, ht, border, x2, y2) && y2 < y) ==> exists|m: Image|
                        m.wf() && m.width == wd && m.height == ht && #[trigger] call_ensures(
                            f,
                            (unpack_spec(cell(orig, wd, x2, y2), x2, y2), &m),
                            unpack_spec(cell(self.data@, wd, x2, y2), x2, y2),
                        ),
                forall|x2: usize, y2: usize|
                    (x2 < wd && y2 < ht && !(in_interior(wd, ht, border, x2, y2) && y2 < y))
                        ==> #[trigger] cell(self.data@, wd, x2, y2) == cell(orig, wd, x2, y2),
            decreases y_hi - y,
        {
            let mut x: usize = border;
            while x < x_hi
                invariant
                    self.wf(),
                    self.width == wd,
                    self.height == ht,
                    self.space == sp,
                    border <= x <= x_hi || x == border,
                    border <= y < y_hi,
                    y_hi == ht - border,
                    x_hi == wd - border,
                    border <= wd,
                    border <= ht,
                    forall|p: Pixel, m: Image|
                        (p.byte_valid() && in_interior(wd, ht, border, p.x, p.y) && m.wf()
                            && m.width == wd && m.height == ht) ==> #[trigger] call_requires(
                            f,
                            (p, &m),
                        ),
                    forall|p: Pixel, m: &Image, q: Pixel|
                        (p.byte_valid() && in_interior(wd, ht, border, p.x, p.y)
                            && #[trigger] call_ensures(f, (p, m), q)) ==> (q.byte_valid() && q.x
                            == p.x && q.y == p.y),
                    forall|x2: usize, y2: usize|
                        (in_interior(wd, ht, border, x2, y2) && (y2 < y || (y2 == y && x2 < x)))
                            ==> exists|m: Image|
                            m.wf() && m.width == wd && m.height == ht && #[trigger] call_ensures(
                                f,
                                (unpack_spec(cell(orig, wd, x2, y2), x2, y2), &m),
                                unpack_spec(cell(self.data@, wd, x2, y2), x2, y2),
                            ),
                    forall|x2: usize, y2: usize|
                        (x2 < wd && y2 < ht && !(in_interior(wd, ht, border, x2, y2) && (y2 < y || (
                        y2 == y && x2 < x)))) ==> #[trigger] cell(self.data@, wd, x2, y2) == cell(
                            orig,
                            wd,
                            x2,
                            y2,
                        ),
                decreases x_hi - x,
            {
                let p = self.get(x, y);
                let ghost before = self.data@;
                let ghost observed = *self;
                let q = f(p, &*self);
                self.set(&q);
                proof {
                    lemma_index_in_grid(wd as int, ht as int, x as int, y as int);
                    lemma_unpack_pack(q);
                    assert(cell(self.data@, wd, x, y) == pack_spec(q));
                    assert(unpack_spec(cell(self.data@, wd, x, y), x, y) == q);
                    assert(p == unpack_spec(cell(orig, wd, x, y), x, y));
                    assert forall|x2: usize, y2: usize|
                        (in_interior(wd, ht, border, x2, y2) && (y2 < y || (y2 == y && x2 < x
                            + 1))) implies exists|m: Image|
                        m.wf() && m.width == wd && m.height == ht && #[trigger] call_ensures(
                            f,
                            (unpack_spec(cell(orig, wd, x2, y2), x2, y2), &m),
                            unpack_spec(cell(self.data@, wd, x2, y2), x2, y2),
                        ) by {
                        lemma_index_in_grid(wd as int, ht as int, x2 as int, y2 as int);
                        if x2 == x && y2 == y {
                            assert(observed.wf() && observed.width == wd && observed.height == ht
                                && call_ensures(
                                f,
                                (unpack_spec(cell(orig, wd, x, y), x, y), &observed),
                                unpack_spec(cell(self.data@, wd, x, y), x, y),
                            ));
                        } else {
                            if y2 as int * wd as int + x2 as int == y as int * wd as int
                                + x as int {
                                lemma_index_injective(
                                    wd as int,
                                    x2 as int,
                                    y2 as int,
                                    x as int,
                                    y as int,
                                );
                            }
                            assert(cell(self.data@, wd, x2, y2) == cell(before, wd, x2, y2));
                            assert(exists|m: Image|
                                m.wf() && m.width == wd && m.height == ht && #[trigger] call_ensures(
                                    f,
                                    (unpack_spec(cell(orig, wd, x2, y2), x2, y2), &m),
                                    unpack_spec(cell(before, wd, x2, y2), x2, y2),
                                ));
                        }
                    }
                    assert forall|x2: usize, y2: usize|
                        (x2 < wd && y2 < ht && !(in_interior(wd, ht, border, x2, y2) && (y2 < y || (
                        y2 == y && x2 < x + 1)))) implies cell(self.data@, wd, x2, y2) == cell(
                        orig,
                        wd,
                        x2,
                        y2,
                    ) by {
                        lemma_index_in_grid(wd as int, ht as int, x2 as int, y2 as int);
                        if y2 as int * wd as int + x2 as int == y as int * wd as int + x as int {
                            lemma_index_injective(
                                wd as int,
                                x2 as int,
                                y2 as int,
                                x as int,
                                y as int,
                            );
                        }
                        assert(cell(before, wd, x2, y2) == cell(orig, wd, x2, y2));
                    }
                }
                x = x + 1;
            }
            y = y + 1;
        }
    }

    /// Convert the image's color channels into the target color space by a
    /// full traversal with the matching per-pixel conversion; a no-op if the
    /// image is already tagged with the target space.
    pub fn cvt_color(&mut self, format: ColorSpace)
        requires
            old(self).wf(),
        ensures
            final(self).wf(),
            final(self).width == old(self).width,
            final(self).height == old(self).height,
            final(self).space == format,
            old(self).space == format ==> final(self).data@ == old(self).data@,
            (old(self).space != format && format == ColorSpace::HSV) ==> forall|x: usize, y: usize|
                (x < old(self).width && y < old(self).height) ==> #[trigger] cell(
                    final(self).data@,
                    old(self).width,
                    x,
                    y,
                ) == pack_spec(
                    rgb_to_hsv_spec(
                        unpack_spec(cell(old(self).data@, old(self).width, x, y), x, y),
                    ),
                ),
            (old(self).space != format && format == ColorSpace::RGB) ==> forall|x: usize, y: usize|
                (x < old(self).width && y < old(self).height) ==> #[trigger] cell(
                    final(self).data@,
                    old(self).width,
                    x,
                    y,
                ) == pack_spec(
                    hsv_to_rgb_spec(
                        unpack_spec(cell(old(self).data@, old(self).width, x, y), x, y),
                    ),
                ),
    {
        if self.space == format {
            return ;
        }
        match format {
            ColorSpace::HSV => {
                let g = |p: Pixel| -> (q: Pixel)
                    requires
                        p.byte_valid(),
                    ensures
                        q == rgb_to_hsv_spec(p),
                        q.byte_valid(),
                    {
                        let mut t = p;
                        rgb_to_hsv(&mut t);
                        t
                    };
                self.iter_pixels(g);
                proof {
                    assert forall|x: usize, y: usize|
                        x < old(self).width && y < old(self).height implies #[trigger] cell(
                        self.data@,
                        old(self).width,
                        x,
                        y,
                    ) == pack_spec(
                        rgb_to_hsv_spec(
                            unpack_spec(cell(old(self).data@, old(self).width, x, y), x, y),
                        ),
                    ) by {
                        lemma_pack_unpack(cell(self.data@, old(self).width, x, y), x, y);
                    }
                }
            },
            ColorSpace::RGB => {
                let g = |p: Pixel| -> (q: Pixel)
                    requires
                        p.byte_valid(),
                    ensures
                        q == hsv_to_rgb_spec(p),
                        q.byte_valid(),
                    {
                        let mut t = p;
                        hsv_to_rgb(&mut t);
                        t
                    };
                self.iter_pixels(g);
                proof {
                    assert forall|x: usize, y: usize|
                        x < old(self).width && y < old(self).height implies #[trigger] cell(
                        self.data@,
                        old(self).width,
                        x,
                        y,
                    ) == pack_spec(
                        hsv_to_rgb_spec(
                            unpack_spec(cell(old(self).data@, old(self).width, x, y), x, y),
                        ),
                    ) by {
                        lemma_pack_unpack(cell(self.data@, old(self).width, x, y), x, y);
                    }
                }
            },
        }
        self.space = format;
    }
}

} // verus!

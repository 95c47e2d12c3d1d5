use std::cell::Cell;

use vision::{hsv_to_rgb, pack, rgb_to_hsv, unpack, ColorSpace, Image, Pixel};

fn px(h: u32, s: u32, v: u32, mask: u32) -> Pixel {
    Pixel { h, s, v, mask, x: 0, y: 0 }
}

#[test]
fn pack_unpack_round_trip() {
    let p = Pixel { h: 10, s: 20, v: 30, mask: 40, x: 3, y: 4 };
    let w = pack(&p);
    assert_eq!(w, 0x0A14_1E28);
    let q = unpack(w, 3, 4);
    assert_eq!(q, p);
}

#[test]
fn pack_unpack_round_trip_extremes() {
    for &(h, s, v, m) in &[(0, 0, 0, 0), (255, 255, 255, 255), (255, 0, 255, 0), (1, 2, 3, 254)] {
        let p = Pixel { h, s, v, mask: m, x: 0, y: 0 };
        assert_eq!(unpack(pack(&p), 0, 0), p);
    }
}

#[test]
fn unpack_layout() {
    let q = unpack(0xDEAD_BEEF, 1, 2);
    assert_eq!(q.h, 0xDE);
    assert_eq!(q.s, 0xAD);
    assert_eq!(q.v, 0xBE);
    assert_eq!(q.mask, 0xEF);
    assert_eq!(q.x, 1);
    assert_eq!(q.y, 2);
}

#[test]
fn rgb_to_hsv_known_red() {
    let mut p = px(255, 0, 0, 9);
    rgb_to_hsv(&mut p);
    assert_eq!((p.h, p.s, p.v, p.mask), (0, 255, 255, 9));
}

#[test]
fn rgb_to_hsv_known_green() {
    let mut p = px(0, 255, 0, 0);
    rgb_to_hsv(&mut p);
    assert_eq!((p.h, p.s, p.v), (85, 255, 255));
}

#[test]
fn rgb_to_hsv_known_blue() {
    let mut p = px(0, 0, 255, 0);
    rgb_to_hsv(&mut p);
    assert_eq!((p.h, p.s, p.v), (170, 255, 255));
}

#[test]
fn rgb_to_hsv_known_black() {
    let mut p = px(0, 0, 0, 3);
    rgb_to_hsv(&mut p);
    assert_eq!((p.h, p.s, p.v, p.mask), (0, 0, 0, 3));
}

#[test]
fn rgb_to_hsv_negative_difference_wraps() {
    // red barely tinted with blue: the dominant-channel difference is
    // negative and must wrap to the top of the hue wheel
    let mut p = px(255, 0, 1, 0);
    rgb_to_hsv(&mut p);
    assert_eq!(p.h, 254);
}

#[test]
fn hsv_to_rgb_known_vectors() {
    let mut p = px(0, 255, 255, 9);
    hsv_to_rgb(&mut p);
    assert_eq!((p.h, p.s, p.v, p.mask), (255, 0, 0, 9));

    let mut g = px(85, 255, 255, 0);
    hsv_to_rgb(&mut g);
    assert_eq!((g.h, g.s, g.v), (0, 255, 0));

    let mut b = px(170, 255, 255, 0);
    hsv_to_rgb(&mut b);
    assert_eq!((b.h, b.s, b.v), (0, 0, 255));
}

#[test]
fn gray_round_trip_exact() {
    for &v in &[0u32, 1, 77, 128, 255] {
        let mut p = px(v, v, v, 5);
        rgb_to_hsv(&mut p);
        hsv_to_rgb(&mut p);
        assert_eq!((p.h, p.s, p.v, p.mask), (v, v, v, 5));
    }
}

#[test]
fn color_round_trip_drift_bounded() {
    // the integer hue scaling truncates, so the round trip may drift a
    // little on the non-dominant channels; the dominant channel is exact
    for &(r, g, b) in &[(255u32, 100, 0), (12, 240, 200), (200, 10, 180), (1, 2, 3)] {
        let mut p = px(r, g, b, 0);
        rgb_to_hsv(&mut p);
        hsv_to_rgb(&mut p);
        let drift =
            |a: u32, b: u32| if a > b { a - b } else { b - a };
        assert!(drift(p.h, r) <= 6, "drift {} {} {}", p.h, r, drift(p.h, r));
        assert!(drift(p.s, g) <= 6);
        assert!(drift(p.v, b) <= 6);
        // the channel maximum survives exactly
        assert_eq!(p.h.max(p.s).max(p.v), r.max(g).max(b));
    }
}

#[test]
fn color_round_trip_exact_sample() {
    // one worked example with exact expected values: truncation moves the
    // green channel from 100 to 96
    let mut p = px(255, 100, 0, 0);
    rgb_to_hsv(&mut p);
    assert_eq!((p.h, p.s, p.v), (16, 255, 255));
    hsv_to_rgb(&mut p);
    assert_eq!((p.h, p.s, p.v), (255, 96, 0));
}

#[test]
fn new_image_is_zeroed() {
    let img = Image::new(4, 3);
    assert_eq!(img.width, 4);
    assert_eq!(img.height, 3);
    assert_eq!(img.data.len(), 12);
    assert!(matches!(img.space, ColorSpace::RGB));
    assert!(img.data.iter().all(|&w| w == 0));
}

#[test]
fn get_set_round_trip() {
    let mut img = Image::new(4, 3);
    let p = Pixel { h: 1, s: 2, v: 3, mask: 4, x: 2, y: 1 };
    img.set(&p);
    assert_eq!(img.data[1 * 4 + 2], 0x0102_0304);
    let q = img.get(2, 1);
    assert_eq!(q, p);
    // the rest of the image is untouched
    let z = img.get(0, 0);
    assert_eq!((z.h, z.s, z.v, z.mask), (0, 0, 0, 0));
}

#[test]
fn from_data_keeps_words() {
    let data = vec![1u32, 2, 3, 4, 5, 6];
    let img = Image::from_data(3, 2, ColorSpace::HSV, data.clone());
    assert_eq!(img.data, data);
    assert_eq!(img.width, 3);
    assert_eq!(img.height, 2);
}

#[test]
fn iter_pixels_visits_each_cell_once() {
    let mut img = Image::new(5, 4);
    let count = Cell::new(0usize);
    img.iter_pixels(|p: Pixel| {
        count.set(count.get() + 1);
        p
    });
    assert_eq!(count.get(), 20);
}

#[test]
fn iter_pixels_transforms_every_cell() {
    let mut img = Image::new(3, 3);
    img.iter_pixels(|mut p: Pixel| {
        p.mask = (p.x + 10 * p.y) as u32;
        p
    });
    for y in 0..3 {
        for x in 0..3 {
            assert_eq!(img.get(x, y).mask, (x + 10 * y) as u32);
        }
    }
}

#[test]
fn iter_borrow_visits_interior_once() {
    let mut img = Image::new(5, 4);
    let count = Cell::new(0usize);
    img.iter_borrow(
        |p: Pixel, _img: &Image| {
            count.set(count.get() + 1);
            p
        },
        1,
    );
    assert_eq!(count.get(), (5 - 2) * (4 - 2));
}

#[test]
fn iter_borrow_leaves_border_cells() {
    let mut img = Image::new(4, 4);
    img.iter_borrow(
        |mut p: Pixel, _img: &Image| {
            p.mask = 200;
            p
        },
        1,
    );
    for y in 0..4 {
        for x in 0..4 {
            let expect = if (1..3).contains(&x) && (1..3).contains(&y) { 200 } else { 0 };
            assert_eq!(img.get(x, y).mask, expect, "at {} {}", x, y);
        }
    }
}

#[test]
fn iter_borrow_zero_border_visits_all() {
    let mut img = Image::new(3, 2);
    let count = Cell::new(0usize);
    img.iter_borrow(
        |p: Pixel, _img: &Image| {
            count.set(count.get() + 1);
            p
        },
        0,
    );
    assert_eq!(count.get(), 6);
}

#[test]
fn cvt_color_converts_and_tags() {
    let mut img = Image::new(2, 2);
    let p = Pixel { h: 255, s: 0, v: 0, mask: 9, x: 0, y: 0 };
    img.set(&p);
    img.cvt_color(ColorSpace::HSV);
    assert!(matches!(img.space, ColorSpace::HSV));
    let q = img.get(0, 0);
    assert_eq!((q.h, q.s, q.v, q.mask), (0, 255, 255, 9));
    // the other cells were black and convert to (0, 0, 0)
    let z = img.get(1, 1);
    assert_eq!((z.h, z.s, z.v), (0, 0, 0));
}

#[test]
fn cvt_color_is_noop_when_already_there() {
    let mut img = Image::new(2, 2);
    let p = Pixel { h: 13, s: 14, v: 15, mask: 1, x: 1, y: 0 };
    img.set(&p);
    let before = img.data.clone();
    img.cvt_color(ColorSpace::RGB);
    assert_eq!(img.data, before);
    assert!(matches!(img.space, ColorSpace::RGB));
}

#[test]
fn cvt_color_round_trip_keeps_gray() {
    let mut img = Image::new(2, 1);
    img.set(&Pixel { h: 80, s: 80, v: 80, mask: 2, x: 1, y: 0 });
    img.cvt_color(ColorSpace::HSV);
    img.cvt_color(ColorSpace::RGB);
    let q = img.get(1, 0);
    assert_eq!((q.h, q.s, q.v, q.mask), (80, 80, 80, 2));
}

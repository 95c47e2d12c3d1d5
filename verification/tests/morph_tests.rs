use vision::{check_adjacent, dilate, erode, ColorSpace, Image, Pixel, TMP_MASK};

fn mask_image(width: usize, height: usize, masks: &[u32]) -> Image {
    assert_eq!(masks.len(), width * height);
    let data: Vec<u32> = masks.iter().map(|&m| m).collect();
    Image::from_data(width, height, ColorSpace::RGB, data)
}

fn masks_of(img: &Image) -> Vec<u32> {
    img.data.iter().map(|&w| w & 0xFF).collect()
}

#[test]
fn check_adjacent_counts_matches() {
    let img = mask_image(
        3,
        3,
        &[
            5, 0, 5, //
            0, 5, 0, //
            5, 0, 7,
        ],
    );
    assert_eq!(check_adjacent(&img, 1, 1, 5, 5), 4);
    assert_eq!(check_adjacent(&img, 1, 1, 5, 0), 8);
    assert_eq!(check_adjacent(&img, 1, 1, 5, 7), 5);
    assert_eq!(check_adjacent(&img, 1, 1, 9, 9), 0);
}

#[test]
fn erode_uniform_mask_unchanged() {
    let masks = vec![5u32; 25];
    let mut img = mask_image(5, 5, &masks);
    let before = img.data.clone();
    erode(&mut img, 5, 9);
    assert_eq!(img.data, before);
}

#[test]
fn erode_shrinks_block_to_center() {
    // a 3x3 block of mask 5 centered in a 7x7 field of mask 9: one erosion
    // leaves only the center pixel
    let mut masks = vec![9u32; 49];
    for y in 2..5 {
        for x in 2..5 {
            masks[y * 7 + x] = 5;
        }
    }
    let mut img = mask_image(7, 7, &masks);
    erode(&mut img, 5, 9);
    let got = masks_of(&img);
    for y in 0..7 {
        for x in 0..7 {
            let expect = if x == 3 && y == 3 { 5 } else { 9 };
            assert_eq!(got[y * 7 + x], expect, "at {} {}", x, y);
        }
    }
}

#[test]
fn erode_keeps_color_channels() {
    let mut img = Image::from_data(3, 3, ColorSpace::RGB, vec![0xAABBCC_05u32; 9]);
    erode(&mut img, 5, 9);
    for w in img.data.iter() {
        assert_eq!(w >> 8, 0xAABBCC);
    }
}

#[test]
fn dilate_grows_block_by_one_ring() {
    // a single pixel of mask 5 in the middle of a 7x7 field of mask 9:
    // one dilation grows it to a 3x3 block
    let mut masks = vec![9u32; 49];
    masks[3 * 7 + 3] = 5;
    let mut img = mask_image(7, 7, &masks);
    dilate(&mut img, 5);
    let got = masks_of(&img);
    for y in 0..7 {
        for x in 0..7 {
            let expect = if (2..5).contains(&x) && (2..5).contains(&y) { 5 } else { 9 };
            assert_eq!(got[y * 7 + x], expect, "at {} {}", x, y);
        }
    }
}

#[test]
fn dilate_without_target_changes_nothing() {
    let mut img = mask_image(4, 4, &vec![9u32; 16]);
    let before = img.data.clone();
    dilate(&mut img, 5);
    assert_eq!(img.data, before);
}

#[test]
fn erode_sentinel_never_leaks() {
    // even an input that already carries sentinel masks comes out clean
    let mut masks = vec![TMP_MASK; 16];
    masks[5] = 5;
    let mut img = mask_image(4, 4, &masks);
    erode(&mut img, 5, 9);
    for &m in masks_of(&img).iter() {
        assert_ne!(m, TMP_MASK);
    }
}

#[test]
fn dilate_sentinel_never_leaks() {
    let mut masks = vec![9u32; 25];
    masks[12] = 5;
    masks[0] = TMP_MASK;
    let mut img = mask_image(5, 5, &masks);
    dilate(&mut img, 5);
    for &m in masks_of(&img).iter() {
        assert_ne!(m, TMP_MASK);
    }
}

#[test]
fn erode_tiny_image_unchanged() {
    // a 1x1 image has no interior: pass one is empty and pass two finds no
    // sentinel
    let mut img = mask_image(1, 1, &[5]);
    erode(&mut img, 5, 9);
    assert_eq!(masks_of(&img), vec![5]);
}

#[test]
fn dilate_border_ring_is_never_written() {
    // the target sits against the image border; dilation only writes the
    // border-exclusive interior
    let mut masks = vec![9u32; 16];
    masks[1 * 4 + 1] = 5;
    let mut img = mask_image(4, 4, &masks);
    dilate(&mut img, 5);
    let got = masks_of(&img);
    // interior cells adjacent to (1, 1) become 5; all border cells keep 9
    for y in 0..4 {
        for x in 0..4 {
            let interior = (1..3).contains(&x) && (1..3).contains(&y);
            let expect = if interior { 5 } else { 9 };
            assert_eq!(got[y * 4 + x], expect, "at {} {}", x, y);
        }
    }
}

#[test]
fn erode_respects_secondary_sentinel_count() {
    // a block whose neighborhood mixes target and sentinel masks still
    // counts as full, so the center survives and the sentinels are cleaned
    let mut masks = vec![5u32; 9];
    masks[0] = TMP_MASK;
    let mut img = mask_image(3, 3, &masks);
    erode(&mut img, 5, 9);
    let got = masks_of(&img);
    // center kept its target mask: all nine neighbors matched target or
    // sentinel
    assert_eq!(got[4], 5);
    // the sentinel corner was rewritten to the default
    assert_eq!(got[0], 9);
}

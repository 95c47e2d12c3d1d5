//! Integer-only RGB<->HSV conversion, operating on the three color channels
//! of an unpacked pixel in place.  The mask channel and the coordinate are
//! never touched.  All arithmetic is fixed-point on non-negative integers:
//! hue is scaled into the 0..=255 wheel through a 1530-wide intermediate
//! range divided by 6, with offsets 0, 510 and 1020 placing the three
//! dominant-channel branches in disjoint thirds of the wheel.

use vstd::prelude::*;

use crate::types::Pixel;

verus! {

/// The largest of three channel values.
pub open spec fn max3(a: int, b: int, c: int) -> int {
    if a >= b && a >= c {
        a
    } else if b >= c {
        b
    } else {
        c
    }
}

/// The smallest of three channel values.
pub open spec fn min3(a: int, b: int, c: int) -> int {
    if a <= b && a <= c {
        a
    } else if b <= c {
        b
    } else {
        c
    }
}

/// The hue of an RGB triple with chroma `delta != 0`, on the 0..=255 wheel.
/// The dominant channel is tested in the order A, then B, then C; a negative
/// dominant-channel difference wraps modulo the 1530-wide intermediate range
/// before the final division by 6.
pub open spec fn hue_spec(a: int, b: int, c: int, v: int, delta: int) -> int {
    if v == a {
        if b >= c {
            (255 * (b - c) / delta) / 6
        } else {
            (1530 - 255 * (c - b) / delta) / 6
        }
    } else if v == b {
        if c >= a {
            (510 + 255 * (c - a) / delta) / 6
        } else {
            (510 - 255 * (a - c) / delta) / 6
        }
    } else {
        if a >= b {
            (1020 + 255 * (a - b) / delta) / 6
        } else {
            (1020 - 255 * (b - a) / delta) / 6
        }
    }
}

/// The pixel produced by reinterpreting the color channels of `p` from RGB
/// to HSV: value is the channel maximum, saturation is the chroma scaled
/// into 0..=255, and hue is `hue_spec` (or 0 for the degenerate gray case
/// `delta == 0`).
pub open spec fn rgb_to_hsv_spec(p: Pixel) -> Pixel {
    let a = p.h as int;
    let b = p.s as int;
    let c = p.v as int;
    let v = max3(a, b, c);
    let delta = v - min3(a, b, c);
    let hue = if delta == 0 {
        0
    } else {
        hue_spec(a, b, c, v, delta)
    };
    let sat = if v == 0 {
        0
    } else {
        delta * 255 / v
    };
    Pixel { h: hue as u32, s: sat as u32, v: v as u32, mask: p.mask, x: p.x, y: p.y }
}

/// The pixel produced by reinterpreting the color channels of `p` from HSV
/// to RGB: chroma and a triangular ramp select the before-offset triple for
/// the pixel's 43-wide hue bucket, and the value-minus-chroma offset is added
/// to each channel.
pub open spec fn hsv_to_rgb_spec(p: Pixel) -> Pixel {
    let h = p.h as int;
    let s = p.s as int;
    let v = p.v as int;
    let c = s * v / 255;
    let r6 = (6 * h) % 510;
    let dist = if r6 >= 255 {
        r6 - 255
    } else {
        255 - r6
    };
    let x = c * (255 - dist) / 255;
    let m = v - c;
    let rgb = if h <= 42 {
        (c, x, 0int)
    } else if h <= 85 {
        (x, c, 0int)
    } else if h <= 127 {
        (0int, c, x)
    } else if h <= 170 {
        (0int, x, c)
    } else if h <= 212 {
        (x, 0int, c)
    } else {
        (c, 0int, x)
    };
    Pixel {
        h: (rgb.0 + m) as u32,
        s: (rgb.1 + m) as u32,
        v: (rgb.2 + m) as u32,
        mask: p.mask,
        x: p.x,
        y: p.y,
    }
}

/// A scaled ratio is bounded by its scale: `k * num / den <= k` whenever
/// `num <= den`.
proof fn lemma_scaled_ratio_le(k: int, num: int, den: int)
    requires
        0 <= k,
        0 <= num <= den,
        1 <= den,
    ensures
        k * num / den <= k,
        0 <= k * num / den,
{
    broadcast use vstd::arithmetic::mul::lemma_mul_inequality;
    broadcast use vstd::arithmetic::mul::lemma_mul_is_commutative;
    broadcast use vstd::arithmetic::mul::lemma_mul_nonnegative;
    broadcast use vstd::arithmetic::div_mod::lemma_div_is_ordered;
    broadcast use vstd::arithmetic::div_mod::lemma_div_multiples_vanish;
    broadcast use vstd::arithmetic::div_mod::lemma_div_pos_is_pos;

    assert(k * num <= k * den);
    assert(k * den / den == k);
    assert(k * num / den <= k * den / den);
}

/// The middle of three channel values: neither the largest nor the
/// smallest.
pub open spec fn mid3(a: int, b: int, c: int) -> int {
    a + b + c - max3(a, b, c) - min3(a, b, c)
}

/// Scaling the chroma into a saturation byte and back loses at most one
/// unit: for `s2 = delta * 255 / v` and `c2 = s2 * v / 255`, the
/// reconstructed chroma `c2` lies between `delta - 1` and `delta`.
proof fn lemma_chroma_back(delta: int, v: int)
    requires
        1 <= delta,
        delta <= v,
        v <= 255,
    ensures
        ({
            let s2 = delta * 255 / v;
            let c2 = s2 * v / 255;
            0 <= s2 <= 255 && delta - 1 <= c2 <= delta
        }),
{
    vstd::arithmetic::mul::lemma_mul_is_commutative(delta, 255);
    lemma_scaled_ratio_le(255, delta, v);
    let s2 = delta * 255 / v;
    vstd::arithmetic::mul::lemma_mul_is_commutative(s2, v);
    lemma_scaled_ratio_le(v, s2, 255);
    let c2 = s2 * v / 255;
    vstd::arithmetic::div_mod::lemma_fundamental_div_mod(delta * 255, v);
    vstd::arithmetic::div_mod::lemma_mod_division_less_than_divisor(delta * 255, v);
    vstd::arithmetic::mul::lemma_mul_is_commutative(v, s2);
    vstd::arithmetic::div_mod::lemma_fundamental_div_mod(s2 * v, 255);
    vstd::arithmetic::div_mod::lemma_mod_division_less_than_divisor(s2 * v, 255);
    assert(255 * c2 >= delta * 255 - 508);
    assert(255 * (delta - c2) <= 508) by {
        vstd::arithmetic::mul::lemma_mul_is_distributive_sub(255, delta, c2);
    }
    assert(delta - c2 <= 1);
    assert(v * s2 <= delta * 255);
    vstd::arithmetic::div_mod::lemma_div_is_ordered(s2 * v, delta * 255, 255);
    vstd::arithmetic::div_mod::lemma_div_multiples_vanish(delta, 255);
    assert(c2 <= delta);
}

/// Scaling a channel difference through the truncated hue ramp and back
/// reconstructs it to within six units: for `t = 255 * diff / delta`, a ramp
/// within five of `t`, and a chroma within one of `delta`, the value
/// `c2 * ramp / 255 + (delta - c2)` lies within six of `diff`.
proof fn lemma_ramp_scale(diff: int, delta: int, c2: int, t: int, ramp: int)
    requires
        1 <= delta <= 255,
        0 <= diff <= delta,
        t == 255 * diff / delta,
        delta - 1 <= c2 <= delta,
        t - 5 <= ramp <= t + 5,
        0 <= ramp <= 255,
    ensures
        diff - 6 <= c2 * ramp / 255 + (delta - c2) <= diff + 6,
{
    vstd::arithmetic::mul::lemma_mul_is_commutative(diff, 255);
    lemma_scaled_ratio_le(255, diff, delta);
    assert(0 <= t <= 255);
    vstd::arithmetic::div_mod::lemma_fundamental_div_mod(255 * diff, delta);
    vstd::arithmetic::div_mod::lemma_mod_division_less_than_divisor(255 * diff, delta);
    let rt = (255 * diff) % delta;
    assert(255 * diff == delta * t + rt);

    let x2 = c2 * ramp / 255;
    vstd::arithmetic::div_mod::lemma_fundamental_div_mod(c2 * ramp, 255);
    vstd::arithmetic::div_mod::lemma_mod_division_less_than_divisor(c2 * ramp, 255);
    let rx = (c2 * ramp) % 255;
    assert(255 * x2 == c2 * ramp - rx);

    // upper bound
    assert(c2 * ramp <= delta * t + delta * 5) by (nonlinear_arith)
        requires
            0 <= c2 <= delta,
            0 <= ramp <= t + 5,
    ;
    assert(delta * 5 <= 255 * 5) by (nonlinear_arith)
        requires
            delta <= 255,
    ;
    assert(255 * x2 <= 255 * diff + 5 * 255);
    assert(255 * (x2 - diff) <= 5 * 255) by {
        vstd::arithmetic::mul::lemma_mul_is_distributive_sub(255, x2, diff);
    }
    assert(x2 <= diff + 5);

    // lower bound, split on whether the chroma came back exactly
    if c2 == delta {
        assert(c2 * ramp >= delta * t - delta * 5) by (nonlinear_arith)
            requires
                c2 == delta,
                1 <= delta,
                t - 5 <= ramp,
        ;
        assert(255 * x2 >= 255 * diff - rt - 5 * 255 - 254);
        assert(255 * (diff - x2) <= 254 + 5 * 255 + 254) by {
            vstd::arithmetic::mul::lemma_mul_is_distributive_sub(255, diff, x2);
        }
        assert(diff - x2 <= 6);
    } else {
        assert(c2 * ramp >= delta * t - 5 * delta - t + 5) by (nonlinear_arith)
            requires
                c2 == delta - 1,
                1 <= delta,
                t - 5 <= ramp,
        ;
        assert(5 * delta <= 5 * 255) by (nonlinear_arith)
            requires
                delta <= 255,
        ;
        assert(255 * x2 >= 255 * diff - 2033);
        assert(255 * (diff - x2) <= 2033) by {
            vstd::arithmetic::mul::lemma_mul_is_distributive_sub(255, diff, x2);
        }
        assert(diff - x2 <= 7);
    }
}

/// Converting an HSV pixel back to RGB reconstructs the middle channel to
/// within six units, given that the saturation encodes a chroma `delta`
/// against the pixel's value and the hue ramp lands within five of the
/// scaled middle-channel difference `t`.
proof fn lemma_mid_back(r: Pixel, delta: int, diff: int, t: int)
    requires
        1 <= delta,
        delta <= r.v as int,
        r.v as int <= 255,
        r.s as int == delta * 255 / (r.v as int),
        0 <= diff <= delta,
        t == 255 * diff / delta,
        ({
            let h2 = r.h as int;
            let r6 = (6 * h2) % 510;
            let dist = if r6 >= 255 {
                r6 - 255
            } else {
                255 - r6
            };
            t - 5 <= 255 - dist <= t + 5
        }),
    ensures
        ({
            let q = hsv_to_rgb_spec(r);
            let mn2 = r.v as int - delta;
            mn2 + diff - 6 <= mid3(q.h as int, q.s as int, q.v as int) <= mn2 + diff + 6
        }),
{
    let v2 = r.v as int;
    let s2 = r.s as int;
    let h2 = r.h as int;
    lemma_chroma_back(delta, v2);
    vstd::arithmetic::mul::lemma_mul_is_commutative(s2, v2);
    let c2 = s2 * v2 / 255;
    assert(delta - 1 <= c2 <= delta);
    let m2 = v2 - c2;

    vstd::arithmetic::div_mod::lemma_mod_division_less_than_divisor(6 * h2, 510);
    let r6 = (6 * h2) % 510;
    let dist = if r6 >= 255 {
        r6 - 255
    } else {
        255 - r6
    };
    let ramp = 255 - dist;
    assert(0 <= ramp <= 255);
    lemma_scaled_ratio_le(c2, ramp, 255);
    let x2 = c2 * ramp / 255;
    assert(0 <= x2 <= c2);
    lemma_ramp_scale(diff, delta, c2, t, ramp);

    let q = hsv_to_rgb_spec(r);
    assert(q.h as int + q.s as int + q.v as int == c2 + x2 + 3 * m2);
    assert(max3(q.h as int, q.s as int, q.v as int) == c2 + m2);
    assert(min3(q.h as int, q.s as int, q.v as int) == m2);
    assert(mid3(q.h as int, q.s as int, q.v as int) == x2 + m2);
}

/// Gray pixels survive the color round trip exactly: converting a pixel
/// whose three color channels are equal to HSV and back to RGB reproduces
/// it bit for bit.  (For general pixels the round trip may drift by the
/// truncation of the integer hue scaling; see the value-preservation law
/// below for what holds of every pixel.)
pub proof fn lemma_gray_round_trip(p: Pixel)
    requires
        p.byte_valid(),
        p.h == p.s,
        p.s == p.v,
    ensures
        hsv_to_rgb_spec(rgb_to_hsv_spec(p)) == p,
{
    let v = p.h as int;
    if v != 0 {
        vstd::arithmetic::div_mod::lemma_div_of0(v);
        assert(0 * 255 == 0);
    }
    let r = rgb_to_hsv_spec(p);
    assert(r.h == 0 && r.s == 0 && r.v == p.h);
    vstd::arithmetic::mul::lemma_mul_by_zero_is_zero(v);
    assert(0int / 255 == 0);
    assert(hsv_to_rgb_spec(r) == p);
}

/// The color round trip preserves the pixel's value exactly, along with its
/// mask and coordinate: the largest color channel of
/// `hsv_to_rgb_spec(rgb_to_hsv_spec(p))` equals the largest color channel
/// of `p`.
pub proof fn lemma_round_trip_value(p: Pixel)
    requires
        p.byte_valid(),
    ensures
        ({
            let q = hsv_to_rgb_spec(rgb_to_hsv_spec(p));
            max3(q.h as int, q.s as int, q.v as int) == max3(p.h as int, p.s as int, p.v as int)
                && q.mask == p.mask && q.x == p.x && q.y == p.y
        }),
{
    let a = p.h as int;
    let b = p.s as int;
    let c = p.v as int;
    let v = max3(a, b, c);
    let mn = min3(a, b, c);
    let delta = v - mn;
    let r = rgb_to_hsv_spec(p);
    assert(r.v == v as u32);
    if v != 0 {
        vstd::arithmetic::mul::lemma_mul_is_commutative(delta, 255);
        lemma_scaled_ratio_le(255, delta, v);
    }
    assert(0 <= r.s as int <= 255);

    let s2 = r.s as int;
    let v2 = r.v as int;
    let h2 = r.h as int;
    vstd::arithmetic::mul::lemma_mul_is_commutative(s2, v2);
    lemma_scaled_ratio_le(v2, s2, 255);
    let c2 = s2 * v2 / 255;
    assert(0 <= c2 <= v2);
    vstd::arithmetic::div_mod::lemma_mod_division_less_than_divisor(6 * h2, 510);
    let r6 = (6 * h2) % 510;
    let dist = if r6 >= 255 {
        r6 - 255
    } else {
        255 - r6
    };
    assert(0 <= 255 - dist <= 255);
    lemma_scaled_ratio_le(c2, 255 - dist, 255);
    let x2 = c2 * (255 - dist) / 255;
    assert(0 <= x2 <= c2);
    let q = hsv_to_rgb_spec(r);
    assert(max3(q.h as int, q.s as int, q.v as int) == v2);
}

/// The color round trip reproduces the pixel's smallest color channel to
/// within one unit, for every pixel: the saturation scaling truncates twice,
/// which can raise the reconstructed minimum by at most 1, and never lowers
/// it.
pub proof fn lemma_round_trip_min(p: Pixel)
    requires
        p.byte_valid(),
    ensures
        ({
            let q = hsv_to_rgb_spec(rgb_to_hsv_spec(p));
            let mn = min3(p.h as int, p.s as int, p.v as int);
            mn <= min3(q.h as int, q.s as int, q.v as int) <= mn + 1
        }),
{
    let a = p.h as int;
    let b = p.s as int;
    let c = p.v as int;
    let v = max3(a, b, c);
    let mn = min3(a, b, c);
    let delta = v - mn;
    let r = rgb_to_hsv_spec(p);
    let s2 = r.s as int;
    assert(r.v == v as u32);

    // saturation is the truncated scaled chroma, and scales back to within
    // one unit of the chroma
    if v == 0 {
        assert(s2 == 0);
    } else if delta == 0 {
        vstd::arithmetic::div_mod::lemma_div_of0(v);
        assert(s2 == 0);
    } else {
        vstd::arithmetic::mul::lemma_mul_is_commutative(delta, 255);
        lemma_scaled_ratio_le(255, delta, v);
        assert(s2 == delta * 255 / v);
    }
    assert(0 <= s2 <= 255);

    let v2 = r.v as int;
    let h2 = r.h as int;
    vstd::arithmetic::mul::lemma_mul_is_commutative(s2, v2);
    lemma_scaled_ratio_le(v2, s2, 255);
    let c2 = s2 * v2 / 255;
    assert(0 <= c2 <= v2);
    vstd::arithmetic::div_mod::lemma_mod_division_less_than_divisor(6 * h2, 510);
    let r6 = (6 * h2) % 510;
    let dist = if r6 >= 255 {
        r6 - 255
    } else {
        255 - r6
    };
    lemma_scaled_ratio_le(c2, 255 - dist, 255);
    let x2 = c2 * (255 - dist) / 255;
    assert(0 <= x2 <= c2);
    let m2 = v2 - c2;

    // chroma comes back between delta - 1 and delta
    if v == 0 {
        assert(delta == 0);
        assert(c2 == 0);
    } else if delta == 0 {
        vstd::arithmetic::mul::lemma_mul_by_zero_is_zero(v2);
        assert(0int / 255 == 0);
        assert(c2 == 0);
    } else {
        vstd::arithmetic::div_mod::lemma_fundamental_div_mod(delta * 255, v);
        let r1 = (delta * 255) % v;
        vstd::arithmetic::div_mod::lemma_mod_division_less_than_divisor(delta * 255, v);
        assert(delta * 255 == v * s2 + r1);
        vstd::arithmetic::mul::lemma_mul_is_commutative(v, s2);
        assert(s2 * v2 >= delta * 255 - 254);
        vstd::arithmetic::div_mod::lemma_fundamental_div_mod(s2 * v2, 255);
        let r2 = (s2 * v2) % 255;
        vstd::arithmetic::div_mod::lemma_mod_division_less_than_divisor(s2 * v2, 255);
        assert(s2 * v2 == 255 * c2 + r2);
        assert(255 * c2 >= delta * 255 - 508);
        assert(255 * (delta - c2) <= 508) by {
            vstd::arithmetic::mul::lemma_mul_is_distributive_sub(255, delta, c2);
        }
        assert(delta - c2 <= 1);
        // and chroma never exceeds delta
        assert(v * s2 <= delta * 255);
        assert(s2 * v2 <= delta * 255);
        vstd::arithmetic::div_mod::lemma_div_is_ordered(s2 * v2, delta * 255, 255);
        vstd::arithmetic::mul::lemma_mul_is_commutative(delta, 255);
        vstd::arithmetic::div_mod::lemma_div_multiples_vanish(delta, 255);
        assert(c2 <= delta);
    }
    assert(delta - 1 <= c2 <= delta);
    assert(mn <= m2 <= mn + 1);

    let q = hsv_to_rgb_spec(r);
    assert(min3(q.h as int, q.s as int, q.v as int) == m2);
}

/// The color round trip reproduces the pixel's middle color channel to
/// within six units, for every pixel: the hue quantization onto the 0..=255
/// wheel costs up to five units of the 0..=255-scaled channel difference,
/// and the chroma truncation one more.  Together with the exact value and
/// the within-one minimum, this documents the maximum channel drift of the
/// round trip: no sorted channel moves by more than 6.
pub proof fn lemma_round_trip_mid(p: Pixel)
    requires
        p.byte_valid(),
    ensures
        ({
            let q = hsv_to_rgb_spec(rgb_to_hsv_spec(p));
            let mid = mid3(p.h as int, p.s as int, p.v as int);
            mid - 6 <= mid3(q.h as int, q.s as int, q.v as int) <= mid + 6
        }),
{
    let a = p.h as int;
    let b = p.s as int;
    let c = p.v as int;
    let v = max3(a, b, c);
    let mn = min3(a, b, c);
    let delta = v - mn;
    if delta == 0 {
        lemma_gray_round_trip(p);
    } else {
        let r = rgb_to_hsv_spec(p);
        assert(r.v as int == v);
        assert(r.s as int == delta * 255 / v);
        if v == a {
            if b >= c {
                let diff = b - c;
                let t = 255 * diff / delta;
                vstd::arithmetic::mul::lemma_mul_is_commutative(diff, 255);
                lemma_scaled_ratio_le(255, diff, delta);
                let hue = t / 6;
                assert(0 <= hue <= 42);
                assert(r.h as int == hue);
                vstd::arithmetic::div_mod::lemma_fundamental_div_mod(t, 6);
                let rh = t % 6;
                vstd::arithmetic::div_mod::lemma_mod_division_less_than_divisor(t, 6);
                let h2 = r.h as int;
                assert(6 * h2 == t - rh);
                vstd::arithmetic::div_mod::lemma_fundamental_div_mod_converse(
                    6 * h2,
                    510,
                    0,
                    6 * h2,
                );
                assert((6 * h2) % 510 == t - rh);
                lemma_mid_back(r, delta, diff, t);
            } else {
                let diff = c - b;
                let t = 255 * diff / delta;
                vstd::arithmetic::mul::lemma_mul_is_commutative(diff, 255);
                lemma_scaled_ratio_le(255, diff, delta);
                vstd::arithmetic::div_mod::lemma_div_non_zero(255 * diff, delta);
                assert(t >= 1);
                let hue = (1530 - t) / 6;
                assert(212 <= hue <= 254);
                assert(r.h as int == hue);
                vstd::arithmetic::div_mod::lemma_fundamental_div_mod(1530 - t, 6);
                let rh = (1530 - t) % 6;
                vstd::arithmetic::div_mod::lemma_mod_division_less_than_divisor(1530 - t, 6);
                let h2 = r.h as int;
                assert(6 * h2 == 1530 - t - rh);
                vstd::arithmetic::div_mod::lemma_fundamental_div_mod_converse(
                    6 * h2,
                    510,
                    2,
                    6 * h2 - 1020,
                );
                assert((6 * h2) % 510 == 510 - t - rh);
                lemma_mid_back(r, delta, diff, t);
            }
        } else if v == b {
            if c >= a {
                let diff = c - a;
                let t = 255 * diff / delta;
                vstd::arithmetic::mul::lemma_mul_is_commutative(diff, 255);
                lemma_scaled_ratio_le(255, diff, delta);
                let hue = (510 + t) / 6;
                assert(85 <= hue <= 127);
                assert(r.h as int == hue);
                vstd::arithmetic::div_mod::lemma_fundamental_div_mod(510 + t, 6);
                let rh = (510 + t) % 6;
                vstd::arithmetic::div_mod::lemma_mod_division_less_than_divisor(510 + t, 6);
                let h2 = r.h as int;
                assert(6 * h2 == 510 + t - rh);
                if 6 * h2 < 510 {
                    vstd::arithmetic::div_mod::lemma_fundamental_div_mod_converse(
                        6 * h2,
                        510,
                        0,
                        6 * h2,
                    );
                    assert((6 * h2) % 510 == 510 + t - rh);
                } else {
                    vstd::arithmetic::div_mod::lemma_fundamental_div_mod_converse(
                        6 * h2,
                        510,
                        1,
                        6 * h2 - 510,
                    );
                    assert((6 * h2) % 510 == t - rh);
                }
                lemma_mid_back(r, delta, diff, t);
            } else {
                let diff = a - c;
                let t = 255 * diff / delta;
                vstd::arithmetic::mul::lemma_mul_is_commutative(diff, 255);
                lemma_scaled_ratio_le(255, diff, delta);
                vstd::arithmetic::div_mod::lemma_div_non_zero(255 * diff, delta);
                assert(t >= 1);
                let hue = (510 - t) / 6;
                assert(42 <= hue <= 84);
                assert(r.h as int == hue);
                vstd::arithmetic::div_mod::lemma_fundamental_div_mod(510 - t, 6);
                let rh = (510 - t) % 6;
                vstd::arithmetic::div_mod::lemma_mod_division_less_than_divisor(510 - t, 6);
                let h2 = r.h as int;
                assert(6 * h2 == 510 - t - rh);
                vstd::arithmetic::div_mod::lemma_fundamental_div_mod_converse(
                    6 * h2,
                    510,
                    0,
                    6 * h2,
                );
                assert((6 * h2) % 510 == 510 - t - rh);
                lemma_mid_back(r, delta, diff, t);
            }
        } else {
            if a >= b {
                let diff = a - b;
                let t = 255 * diff / delta;
                vstd::arithmetic::mul::lemma_mul_is_commutative(diff, 255);
                lemma_scaled_ratio_le(255, diff, delta);
                let hue = (1020 + t) / 6;
                assert(170 <= hue <= 212);
                assert(r.h as int == hue);
                vstd::arithmetic::div_mod::lemma_fundamental_div_mod(1020 + t, 6);
                let rh = (1020 + t) % 6;
                vstd::arithmetic::div_mod::lemma_mod_division_less_than_divisor(1020 + t, 6);
                let h2 = r.h as int;
                assert(6 * h2 == 1020 + t - rh);
                if 6 * h2 < 1020 {
                    vstd::arithmetic::div_mod::lemma_fundamental_div_mod_converse(
                        6 * h2,
                        510,
                        1,
                        6 * h2 - 510,
                    );
                    assert((6 * h2) % 510 == 510 + t - rh);
                } else {
                    vstd::arithmetic::div_mod::lemma_fundamental_div_mod_converse(
                        6 * h2,
                        510,
                        2,
                        6 * h2 - 1020,
                    );
                    assert((6 * h2) % 510 == t - rh);
                }
                lemma_mid_back(r, delta, diff, t);
            } else {
                let diff = b - a;
                let t = 255 * diff / delta;
                vstd::arithmetic::mul::lemma_mul_is_commutative(diff, 255);
                lemma_scaled_ratio_le(255, diff, delta);
                vstd::arithmetic::div_mod::lemma_div_non_zero(255 * diff, delta);
                assert(t >= 1);
                let hue = (1020 - t) / 6;
                assert(127 <= hue <= 169);
                assert(r.h as int == hue);
                vstd::arithmetic::div_mod::lemma_fundamental_div_mod(1020 - t, 6);
                let rh = (1020 - t) % 6;
                vstd::arithmetic::div_mod::lemma_mod_division_less_than_divisor(1020 - t, 6);
                let h2 = r.h as int;
                assert(6 * h2 == 1020 - t - rh);
                vstd::arithmetic::div_mod::lemma_fundamental_div_mod_converse(
                    6 * h2,
                    510,
                    1,
                    6 * h2 - 510,
                );
                assert((6 * h2) % 510 == 510 - t - rh);
                lemma_mid_back(r, delta, diff, t);
            }
        }
    }
}

/// Convert an RGB pixel to HSV in place.  The mask channel and coordinate
/// are untouched, and the result's channels again fit in 8 bits.
pub fn rgb_to_hsv(p: &mut Pixel)
    requires
        old(p).byte_valid(),
    ensures
        *final(p) == rgb_to_hsv_spec(*old(p)),
        final(p).byte_valid(),
{
    let a = p.h;
    let b = p.s;
    let c = p.v;
    let v = if a >= b && a >= c {
        a
    } else if b >= c {
        b
    } else {
        c
    };
    let mn = if a <= b && a <= c {
        a
    } else if b <= c {
        b
    } else {
        c
    };
    let delta = v - mn;

    let hue: u32 = if delta == 0 {
        0
    } else if v == a {
        if b >= c {
            proof { lemma_scaled_ratio_le(255, b - c, delta as int); }
            ((255 * (b - c)) / delta) / 6
        } else {
            proof { lemma_scaled_ratio_le(255, c - b, delta as int); }
            (1530 - (255 * (c - b)) / delta) / 6
        }
    } else if v == b {
        if c >= a {
            proof { lemma_scaled_ratio_le(255, c - a, delta as int); }
            (510 + (255 * (c - a)) / delta) / 6
        } else {
            proof { lemma_scaled_ratio_le(255, a - c, delta as int); }
            (510 - (255 * (a - c)) / delta) / 6
        }
    } else {
        if a >= b {
            proof { lemma_scaled_ratio_le(255, a - b, delta as int); }
            (1020 + (255 * (a - b)) / delta) / 6
        } else {
            proof { lemma_scaled_ratio_le(255, b - a, delta as int); }
            (1020 - (255 * (b - a)) / delta) / 6
        }
    };

    let sat: u32 = if v == 0 {
        0
    } else {
        proof { lemma_scaled_ratio_le(255, delta as int, v as int); }
        (delta * 255) / v
    };

    p.h = hue;
    p.s = sat;
    p.v = v;
}

/// Convert an HSV pixel to RGB in place.  The mask channel and coordinate
/// are untouched, and the result's channels again fit in 8 bits.
pub fn hsv_to_rgb(p: &mut Pixel)
    requires
        old(p).byte_valid(),
    ensures
        *final(p) == hsv_to_rgb_spec(*old(p)),
        final(p).byte_valid(),
{
    let h = p.h;
    let s = p.s;
    let v = p.v;
    proof { lemma_scaled_ratio_le(v as int, s as int, 255); }
    proof {
        assert(v * s == s * v) by (nonlinear_arith);
    }
    let c: u32 = (s * v) / 255;
    let r6: u32 = (6 * h) % 510;
    let dist: u32 = if r6 >= 255 {
        r6 - 255
    } else {
        255 - r6
    };
    let ramp: u32 = 255 - dist;
    proof { lemma_scaled_ratio_le(c as int, ramp as int, 255); }
    proof {
        assert(c * ramp <= 255 * 255) by (nonlinear_arith)
            requires
                c <= 255 && ramp <= 255,
        ;
    }
    let x: u32 = (c * ramp) / 255;
    let m: u32 = v - c;

    let (r, g, b) = if h <= 42 {
        (c, x, 0u32)
    } else if h <= 85 {
        (x, c, 0u32)
    } else if h <= 127 {
        (0u32, c, x)
    } else if h <= 170 {
        (0u32, x, c)
    } else if h <= 212 {
        (x, 0u32, c)
    } else {
        (c, 0u32, x)
    };

    p.h = r + m;
    p.s = g + m;
    p.v = b + m;
}

} // verus!

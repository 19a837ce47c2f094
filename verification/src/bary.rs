//! Barycentric coordinates, weighted color mixing, and the supersampling
//! predicates of the antialiased primitives.
//!
//! Barycentric coordinates of a point against a triangle are computed from
//! the cross product `(x1−x0, x2−x0, x0−px) × (y1−y0, y2−y0, y0−py)`; the
//! point is inside when all three coordinates are nonnegative, which is a
//! sign test on the integer cross components. A degenerate triangle (zero
//! z component) contains no points. The antialiased primitives sample each
//! pixel on a 2 × 2 grid at offsets of thirds; with every coordinate
//! scaled by six, the samples and the half-pixel vertex offsets are exact
//! integers.

use vstd::prelude::*;

use crate::color::{red_of, green_of, blue_of, alpha_of, spec_rgba2color, lemma_channel_bounds,
    red_part, green_part, blue_part, alpha_part, rgba2color};

verus! {

/// The x component of the barycentric cross product.
pub open spec fn cross_x(
    x0: int,
    y0: int,
    x1: int,
    y1: int,
    x2: int,
    y2: int,
    px: int,
    py: int,
) -> int {
    (x2 - x0) * (y0 - py) - (x0 - px) * (y2 - y0)
}

/// The y component of the barycentric cross product.
pub open spec fn cross_y(
    x0: int,
    y0: int,
    x1: int,
    y1: int,
    x2: int,
    y2: int,
    px: int,
    py: int,
) -> int {
    (x0 - px) * (y1 - y0) - (x1 - x0) * (y0 - py)
}

/// The z component of the barycentric cross product (twice the signed
/// triangle area; independent of the point).
pub open spec fn cross_z(x0: int, y0: int, x1: int, y1: int, x2: int, y2: int) -> int {
    (x1 - x0) * (y2 - y0) - (x2 - x0) * (y1 - y0)
}

/// Whether all three barycentric coordinates v = cx/cz, w = cy/cz and
/// u = 1 − v − w of the point are nonnegative. Degenerate triangles hold
/// no points.
pub open spec fn bary_nonneg(
    x0: int,
    y0: int,
    x1: int,
    y1: int,
    x2: int,
    y2: int,
    px: int,
    py: int,
) -> bool {
    let cx = cross_x(x0, y0, x1, y1, x2, y2, px, py);
    let cy = cross_y(x0, y0, x1, y1, x2, y2, px, py);
    let cz = cross_z(x0, y0, x1, y1, x2, y2);
    if cz > 0 {
        cx >= 0 && cy >= 0 && cz - cx - cy >= 0
    } else if cz < 0 {
        cx <= 0 && cy <= 0 && cz - cx - cy <= 0
    } else {
        false
    }
}

/// One channel of the barycentric mix: `(ch0·un + ch1·vn + ch2·wn) / den`.
pub open spec fn mix_channel(ch0: int, ch1: int, ch2: int, un: int, vn: int, wn: int, den: int) -> int {
    (ch0 * un + ch1 * vn + ch2 * wn) / den
}

/// The color mixed from three colors with barycentric weights
/// `un/den`, `vn/den`, `wn/den` (nonnegative, summing to one), channel by
/// channel with truncation.
pub open spec fn spec_mix3(c0: u32, c1: u32, c2: u32, un: int, vn: int, wn: int, den: int) -> u32 {
    spec_rgba2color(
        mix_channel(red_of(c0) as int, red_of(c1) as int, red_of(c2) as int, un, vn, wn, den) as u32,
        mix_channel(
            green_of(c0) as int,
            green_of(c1) as int,
            green_of(c2) as int,
            un,
            vn,
            wn,
            den,
        ) as u32,
        mix_channel(blue_of(c0) as int, blue_of(c1) as int, blue_of(c2) as int, un, vn, wn, den) as u32,
        mix_channel(
            alpha_of(c0) as int,
            alpha_of(c1) as int,
            alpha_of(c2) as int,
            un,
            vn,
            wn,
            den,
        ) as u32,
    )
}

/// The color mixed at a point of a triangle, with the barycentric weights
/// sign-normalized to a positive denominator. Meaningful only for
/// nondegenerate triangles.
pub open spec fn mix_at(
    c0: u32,
    c1: u32,
    c2: u32,
    x0: int,
    y0: int,
    x1: int,
    y1: int,
    x2: int,
    y2: int,
    px: int,
    py: int,
) -> u32 {
    let cx = cross_x(x0, y0, x1, y1, x2, y2, px, py);
    let cy = cross_y(x0, y0, x1, y1, x2, y2, px, py);
    let cz = cross_z(x0, y0, x1, y1, x2, y2);
    if cz > 0 {
        spec_mix3(c0, c1, c2, cz - cx - cy, cx, cy, cz)
    } else {
        spec_mix3(c0, c1, c2, 0 - (cz - cx - cy), 0 - cx, 0 - cy, 0 - cz)
    }
}

/// A weighted mix channel of byte channels stays a byte value.
pub proof fn lemma_mix_channel_bounds(
    ch0: int,
    ch1: int,
    ch2: int,
    un: int,
    vn: int,
    wn: int,
    den: int,
)
    requires
        0 <= ch0 <= 255,
        0 <= ch1 <= 255,
        0 <= ch2 <= 255,
        0 <= un,
        0 <= vn,
        0 <= wn,
        un + vn + wn == den,
        den >= 1,
    ensures
        0 <= mix_channel(ch0, ch1, ch2, un, vn, wn, den) <= 255,
{
    let num = ch0 * un + ch1 * vn + ch2 * wn;
    assert(0 <= num <= 255 * den) by (nonlinear_arith)
        requires
            num == ch0 * un + ch1 * vn + ch2 * wn && 0 <= ch0 <= 255 && 0 <= ch1 <= 255 && 0 <= ch2
                <= 255 && 0 <= un && 0 <= vn && 0 <= wn && un + vn + wn == den,
    ;
    vstd::arithmetic::div_mod::lemma_div_pos_is_pos(num, den);
    vstd::arithmetic::div_mod::lemma_fundamental_div_mod(num, den);
    vstd::arithmetic::div_mod::lemma_mod_bound(num, den);
    let q = num / den;
    assert(q <= 255) by (nonlinear_arith)
        requires
            den * q <= num && num <= 255 * den && den >= 1 && q == num / den,
    ;
}

/// Mixes three colors with the given nonnegative barycentric weights,
/// channel by channel with truncation.
pub fn mix3(c0: u32, c1: u32, c2: u32, un: i128, vn: i128, wn: i128, den: i128) -> (r: u32)
    requires
        0 <= un,
        0 <= vn,
        0 <= wn,
        un + vn + wn == den,
        1 <= den <= 0x1_0000_0000_0000_0000_0000,
    ensures
        r == spec_mix3(c0, c1, c2, un as int, vn as int, wn as int, den as int),
{
    proof {
        lemma_channel_bounds(c0);
        lemma_channel_bounds(c1);
        lemma_channel_bounds(c2);
        lemma_mix_bounds_all(c0, c1, c2, un as int, vn as int, wn as int, den as int);
    }
    let r = ((red_part(c0) as i128) * un + (red_part(c1) as i128) * vn + (red_part(c2) as i128)
        * wn) / den;
    let g = ((green_part(c0) as i128) * un + (green_part(c1) as i128) * vn + (green_part(
        c2,
    ) as i128) * wn) / den;
    let b = ((blue_part(c0) as i128) * un + (blue_part(c1) as i128) * vn + (blue_part(c2) as i128)
        * wn) / den;
    let a = ((alpha_part(c0) as i128) * un + (alpha_part(c1) as i128) * vn + (alpha_part(
        c2,
    ) as i128) * wn) / den;
    rgba2color(r as u32, g as u32, b as u32, a as u32)
}

/// Channel mixes of byte channels stay byte values, and their products
/// stay far inside `i128`.
proof fn lemma_mix_bounds_all(c0: u32, c1: u32, c2: u32, un: int, vn: int, wn: int, den: int)
    requires
        0 <= un,
        0 <= vn,
        0 <= wn,
        un + vn + wn == den,
        1 <= den <= 0x1_0000_0000_0000_0000_0000,
    ensures
        0 <= mix_channel(red_of(c0) as int, red_of(c1) as int, red_of(c2) as int, un, vn, wn, den)
            <= 255,
        0 <= mix_channel(
            green_of(c0) as int,
            green_of(c1) as int,
            green_of(c2) as int,
            un,
            vn,
            wn,
            den,
        ) <= 255,
        0 <= mix_channel(
            blue_of(c0) as int,
            blue_of(c1) as int,
            blue_of(c2) as int,
            un,
            vn,
            wn,
            den,
        ) <= 255,
        0 <= mix_channel(
            alpha_of(c0) as int,
            alpha_of(c1) as int,
            alpha_of(c2) as int,
            un,
            vn,
            wn,
            den,
        ) <= 255,
        0 <= red_of(c0) * un <= 255 * den && 0 <= red_of(c1) * vn <= 255 * den && 0 <= red_of(c2)
            * wn <= 255 * den,
        0 <= green_of(c0) * un <= 255 * den && 0 <= green_of(c1) * vn <= 255 * den && 0 <= green_of(
            c2,
        ) * wn <= 255 * den,
        0 <= blue_of(c0) * un <= 255 * den && 0 <= blue_of(c1) * vn <= 255 * den && 0 <= blue_of(c2)
            * wn <= 255 * den,
        0 <= alpha_of(c0) * un <= 255 * den && 0 <= alpha_of(c1) * vn <= 255 * den && 0 <= alpha_of(
            c2,
        ) * wn <= 255 * den,
        255 * den <= 0x100_0000_0000_0000_0000_0000,
{
    lemma_channel_bounds(c0);
    lemma_channel_bounds(c1);
    lemma_channel_bounds(c2);
    lemma_mix_channel_bounds(
        red_of(c0) as int,
        red_of(c1) as int,
        red_of(c2) as int,
        un,
        vn,
        wn,
        den,
    );
    lemma_mix_channel_bounds(
        green_of(c0) as int,
        green_of(c1) as int,
        green_of(c2) as int,
        un,
        vn,
        wn,
        den,
    );
    lemma_mix_channel_bounds(
        blue_of(c0) as int,
        blue_of(c1) as int,
        blue_of(c2) as int,
        un,
        vn,
        wn,
        den,
    );
    lemma_mix_channel_bounds(
        alpha_of(c0) as int,
        alpha_of(c1) as int,
        alpha_of(c2) as int,
        un,
        vn,
        wn,
        den,
    );
    assert(0 <= red_of(c0) * un <= 255 * den && 0 <= red_of(c1) * vn <= 255 * den && 0 <= red_of(
        c2,
    ) * wn <= 255 * den && 0 <= green_of(c0) * un <= 255 * den && 0 <= green_of(c1) * vn <= 255
        * den && 0 <= green_of(c2) * wn <= 255 * den && 0 <= blue_of(c0) * un <= 255 * den && 0
        <= blue_of(c1) * vn <= 255 * den && 0 <= blue_of(c2) * wn <= 255 * den && 0 <= alpha_of(c0)
        * un <= 255 * den && 0 <= alpha_of(c1) * vn <= 255 * den && 0 <= alpha_of(c2) * wn <= 255
        * den && 255 * den <= 0x100_0000_0000_0000_0000_0000) by (nonlinear_arith)
        requires
            red_of(c0) <= 255 && red_of(c1) <= 255 && red_of(c2) <= 255 && green_of(c0) <= 255
                && green_of(c1) <= 255 && green_of(c2) <= 255 && blue_of(c0) <= 255 && blue_of(c1)
                <= 255 && blue_of(c2) <= 255 && alpha_of(c0) <= 255 && alpha_of(c1) <= 255
                && alpha_of(c2) <= 255 && 0 <= un <= den && 0 <= vn <= den && 0 <= wn <= den && 1
                <= den <= 0x1_0000_0000_0000_0000_0000,
    ;
}

/// Whether the sample at (sx/6, sy/6) lies in the circle}

/// Whether the sample at (sx/6, sy/6) lies in the circle of radius r
/// around the pixel center (cx + 1/2, cy + 1/2): all coordinates scaled
/// by six.
pub open spec fn circle_sample_in(cx: int, cy: int, r: int, sx: int, sy: int) -> bool {
    (sx - (6 * cx + 3)) * (sx - (6 * cx + 3)) + (sy - (6 * cy + 3)) * (sy - (6 * cy + 3)) <= 36 * r
        * r
}

/// How many of the four supersamples of pixel (px, py) lie in the circle:
/// samples sit at offsets 1/3 and 2/3 on each axis.
pub open spec fn circle_sample_count(cx: int, cy: int, r: int, px: int, py: int) -> int {
    (if circle_sample_in(cx, cy, r, 6 * px + 2, 6 * py + 2) {
        1int
    } else {
        0int
    }) + (if circle_sample_in(cx, cy, r, 6 * px + 2, 6 * py + 4) {
        1int
    } else {
        0int
    }) + (if circle_sample_in(cx, cy, r, 6 * px + 4, 6 * py + 2) {
        1int
    } else {
        0int
    }) + (if circle_sample_in(cx, cy, r, 6 * px + 4, 6 * py + 4) {
        1int
    } else {
        0int
    })
}

/// Whether the supersample at scaled coordinates (sx, sy) lies in the
/// triangle whose vertices sit at the pixel centers (xi + 1/2, yi + 1/2):
/// all coordinates scaled by six.
pub open spec fn tri_sample_in(
    x0: int,
    y0: int,
    x1: int,
    y1: int,
    x2: int,
    y2: int,
    sx: int,
    sy: int,
) -> bool {
    bary_nonneg(6 * x0 + 3, 6 * y0 + 3, 6 * x1 + 3, 6 * y1 + 3, 6 * x2 + 3, 6 * y2 + 3, sx, sy)
}

/// How many of the four supersamples of pixel (px, py) lie in the
/// triangle.
pub open spec fn tri_sample_count(
    x0: int,
    y0: int,
    x1: int,
    y1: int,
    x2: int,
    y2: int,
    px: int,
    py: int,
) -> int {
    (if tri_sample_in(x0, y0, x1, y1, x2, y2, 6 * px + 2, 6 * py + 2) {
        1int
    } else {
        0int
    }) + (if tri_sample_in(x0, y0, x1, y1, x2, y2, 6 * px + 2, 6 * py + 4) {
        1int
    } else {
        0int
    }) + (if tri_sample_in(x0, y0, x1, y1, x2, y2, 6 * px + 4, 6 * py + 2) {
        1int
    } else {
        0int
    }) + (if tri_sample_in(x0, y0, x1, y1, x2, y2, 6 * px + 4, 6 * py + 4) {
        1int
    } else {
        0int
    })
}

/// The barycentric cross product of a point against a triangle, all inputs
/// pre-scaled.
pub(crate) fn cross_at(
    x0: i64,
    y0: i64,
    x1: i64,
    y1: i64,
    x2: i64,
    y2: i64,
    px: i64,
    py: i64,
) -> (r: (i128, i128, i128))
    requires
        -0x20_0000_0000 <= x0 <= 0x20_0000_0000,
        -0x20_0000_0000 <= y0 <= 0x20_0000_0000,
        -0x20_0000_0000 <= x1 <= 0x20_0000_0000,
        -0x20_0000_0000 <= y1 <= 0x20_0000_0000,
        -0x20_0000_0000 <= x2 <= 0x20_0000_0000,
        -0x20_0000_0000 <= y2 <= 0x20_0000_0000,
        -0x20_0000_0000 <= px <= 0x20_0000_0000,
        -0x20_0000_0000 <= py <= 0x20_0000_0000,
    ensures
        r.0 as int == cross_x(x0 as int, y0 as int, x1 as int, y1 as int, x2 as int, y2 as int, px as int, py as int),
        r.1 as int == cross_y(x0 as int, y0 as int, x1 as int, y1 as int, x2 as int, y2 as int, px as int, py as int),
        r.2 as int == cross_z(x0 as int, y0 as int, x1 as int, y1 as int, x2 as int, y2 as int),
        -0x2000_0000_0000_0000_0000 <= r.0 <= 0x2000_0000_0000_0000_0000,
        -0x2000_0000_0000_0000_0000 <= r.1 <= 0x2000_0000_0000_0000_0000,
        -0x2000_0000_0000_0000_0000 <= r.2 <= 0x2000_0000_0000_0000_0000,
{
    let ax = (x1 - x0) as i128;
    let ay = (x2 - x0) as i128;
    let az = (x0 - px) as i128;
    let bx = (y1 - y0) as i128;
    let by = (y2 - y0) as i128;
    let bz = (y0 - py) as i128;
    proof {
        lemma_cross_products_bounded(ax as int, ay as int, az as int, bx as int, by as int, bz as int);
    }
    (ay * bz - az * by, az * bx - ax * bz, ax * by - ay * bx)
}

/// Products of bounded differences stay far inside `i128`.
proof fn lemma_cross_products_bounded(ax: int, ay: int, az: int, bx: int, by: int, bz: int)
    requires
        -0x40_0000_0000 <= ax <= 0x40_0000_0000,
        -0x40_0000_0000 <= ay <= 0x40_0000_0000,
        -0x40_0000_0000 <= az <= 0x40_0000_0000,
        -0x40_0000_0000 <= bx <= 0x40_0000_0000,
        -0x40_0000_0000 <= by <= 0x40_0000_0000,
        -0x40_0000_0000 <= bz <= 0x40_0000_0000,
    ensures
        -0x1000_0000_0000_0000_0000 <= ay * bz <= 0x1000_0000_0000_0000_0000,
        -0x1000_0000_0000_0000_0000 <= az * by <= 0x1000_0000_0000_0000_0000,
        -0x1000_0000_0000_0000_0000 <= az * bx <= 0x1000_0000_0000_0000_0000,
        -0x1000_0000_0000_0000_0000 <= ax * bz <= 0x1000_0000_0000_0000_0000,
        -0x1000_0000_0000_0000_0000 <= ax * by <= 0x1000_0000_0000_0000_0000,
        -0x1000_0000_0000_0000_0000 <= ay * bx <= 0x1000_0000_0000_0000_0000,
{
    assert((-0x1000_0000_0000_0000_0000) <= ay * bz <= 0x1000_0000_0000_0000_0000
        && (-0x1000_0000_0000_0000_0000) <= az * by <= 0x1000_0000_0000_0000_0000
        && (-0x1000_0000_0000_0000_0000) <= az * bx <= 0x1000_0000_0000_0000_0000
        && (-0x1000_0000_0000_0000_0000) <= ax * bz <= 0x1000_0000_0000_0000_0000
        && (-0x1000_0000_0000_0000_0000) <= ax * by <= 0x1000_0000_0000_0000_0000
        && (-0x1000_0000_0000_0000_0000) <= ay * bx <= 0x1000_0000_0000_0000_0000)
        by (nonlinear_arith)
        requires
            -0x40_0000_0000 <= ax <= 0x40_0000_0000 && -0x40_0000_0000 <= ay <= 0x40_0000_0000
                && -0x40_0000_0000 <= az <= 0x40_0000_0000 && -0x40_0000_0000 <= bx
                <= 0x40_0000_0000 && -0x40_0000_0000 <= by <= 0x40_0000_0000 && -0x40_0000_0000
                <= bz <= 0x40_0000_0000,
    ;
}

/// Whether the point at (px, py) (pre-scaled, like the vertices) has all
/// barycentric coordinates nonnegative.
pub(crate) fn point_in_triangle(
    x0: i64,
    y0: i64,
    x1: i64,
    y1: i64,
    x2: i64,
    y2: i64,
    px: i64,
    py: i64,
) -> (r: bool)
    requires
        -0x20_0000_0000 <= x0 <= 0x20_0000_0000,
        -0x20_0000_0000 <= y0 <= 0x20_0000_0000,
        -0x20_0000_0000 <= x1 <= 0x20_0000_0000,
        -0x20_0000_0000 <= y1 <= 0x20_0000_0000,
        -0x20_0000_0000 <= x2 <= 0x20_0000_0000,
        -0x20_0000_0000 <= y2 <= 0x20_0000_0000,
        -0x20_0000_0000 <= px <= 0x20_0000_0000,
        -0x20_0000_0000 <= py <= 0x20_0000_0000,
    ensures
        r == bary_nonneg(
            x0 as int,
            y0 as int,
            x1 as int,
            y1 as int,
            x2 as int,
            y2 as int,
            px as int,
            py as int,
        ),
{
    let (cx, cy, cz) = cross_at(x0, y0, x1, y1, x2, y2, px, py);
    if cz > 0 {
        cx >= 0 && cy >= 0 && cz - cx - cy >= 0
    } else if cz < 0 {
        cx <= 0 && cy <= 0 && cz - cx - cy <= 0
    } else {
        false
    }
}

/// Whether one supersample (scaled by six) lies inside the circle of
/// radius r around the pixel center (cx + 1/2, cy + 1/2).
fn circle_sample_test(cx: i64, cy: i64, r: i64, sx: i64, sy: i64) -> (hit: bool)
    requires
        -0x8000_0000 <= cx <= 0x8000_0000,
        -0x8000_0000 <= cy <= 0x8000_0000,
        0 <= r <= 0x1_0000_0000,
        0 <= sx <= 0x4_0000_0000,
        0 <= sy <= 0x4_0000_0000,
    ensures
        hit == circle_sample_in(cx as int, cy as int, r as int, sx as int, sy as int),
{
    let dx = (sx as i128) - (6 * (cx as i128) + 3);
    let dy = (sy as i128) - (6 * (cy as i128) + 3);
    proof {
        lemma_cross_products_bounded(dx as int, dx as int, dy as int, dy as int, dx as int, dy as int);
        assert(0 <= 36 * (r as int) * (r as int) <= 0x1000_0000_0000_0000_0000)
            by (nonlinear_arith)
            requires
                0 <= r <= 0x1_0000_0000,
        ;
    }
    let rr = 36 * (r as i128) * (r as i128);
    dx * dx + dy * dy <= rr
}

/// How many of the four supersamples of pixel (px, py) lie in the circle.
pub(crate) fn circle_count_at(cx: i32, cy: i32, r: u32, px: u32, py: u32) -> (c: u8)
    requires
        px <= 0x7fff_ffff,
        py <= 0x7fff_ffff,
    ensures
        c as int == circle_sample_count(cx as int, cy as int, r as int, px as int, py as int),
        c <= 4,
{
    let gx = cx as i64;
    let gy = cy as i64;
    let rr = r as i64;
    let x1 = 6 * (px as i64) + 2;
    let x2 = 6 * (px as i64) + 4;
    let y1 = 6 * (py as i64) + 2;
    let y2 = 6 * (py as i64) + 4;
    let mut c: u8 = 0;
    if circle_sample_test(gx, gy, rr, x1, y1) {
        c = c + 1;
    }
    if circle_sample_test(gx, gy, rr, x1, y2) {
        c = c + 1;
    }
    if circle_sample_test(gx, gy, rr, x2, y1) {
        c = c + 1;
    }
    if circle_sample_test(gx, gy, rr, x2, y2) {
        c = c + 1;
    }
    c
}

/// How many of the four supersamples of pixel (px, py) lie in the
/// triangle whose vertices sit at the given pixel centers.
pub(crate) fn tri_count_at(x0: i32, y0: i32, x1: i32, y1: i32, x2: i32, y2: i32, px: u32, py: u32) -> (c:
    u8)
    requires
        px <= 0x7fff_ffff,
        py <= 0x7fff_ffff,
    ensures
        c as int == tri_sample_count(
            x0 as int,
            y0 as int,
            x1 as int,
            y1 as int,
            x2 as int,
            y2 as int,
            px as int,
            py as int,
        ),
        c <= 4,
{
    let gx0 = 6 * (x0 as i64) + 3;
    let gy0 = 6 * (y0 as i64) + 3;
    let gx1 = 6 * (x1 as i64) + 3;
    let gy1 = 6 * (y1 as i64) + 3;
    let gx2 = 6 * (x2 as i64) + 3;
    let gy2 = 6 * (y2 as i64) + 3;
    let sx1 = 6 * (px as i64) + 2;
    let sx2 = 6 * (px as i64) + 4;
    let sy1 = 6 * (py as i64) + 2;
    let sy2 = 6 * (py as i64) + 4;
    let mut c: u8 = 0;
    if point_in_triangle(gx0, gy0, gx1, gy1, gx2, gy2, sx1, sy1) {
        c = c + 1;
    }
    if point_in_triangle(gx0, gy0, gx1, gy1, gx2, gy2, sx1, sy2) {
        c = c + 1;
    }
    if point_in_triangle(gx0, gy0, gx1, gy1, gx2, gy2, sx2, sy1) {
        c = c + 1;
    }
    if point_in_triangle(gx0, gy0, gx1, gy1, gx2, gy2, sx2, sy2) {
        c = c + 1;
    }
    c
}

/// The color mixed at the first covered supersample of a pixel, in sample
/// order; meaningful only when some sample is covered.
pub open spec fn tri_first_color(
    c0: u32,
    c1: u32,
    c2: u32,
    x0: int,
    y0: int,
    x1: int,
    y1: int,
    x2: int,
    y2: int,
    px: int,
    py: int,
) -> u32 {
    let gx0 = 6 * x0 + 3;
    let gy0 = 6 * y0 + 3;
    let gx1 = 6 * x1 + 3;
    let gy1 = 6 * y1 + 3;
    let gx2 = 6 * x2 + 3;
    let gy2 = 6 * y2 + 3;
    if tri_sample_in(x0, y0, x1, y1, x2, y2, 6 * px + 2, 6 * py + 2) {
        mix_at(c0, c1, c2, gx0, gy0, gx1, gy1, gx2, gy2, 6 * px + 2, 6 * py + 2)
    } else if tri_sample_in(x0, y0, x1, y1, x2, y2, 6 * px + 2, 6 * py + 4) {
        mix_at(c0, c1, c2, gx0, gy0, gx1, gy1, gx2, gy2, 6 * px + 2, 6 * py + 4)
    } else if tri_sample_in(x0, y0, x1, y1, x2, y2, 6 * px + 4, 6 * py + 2) {
        mix_at(c0, c1, c2, gx0, gy0, gx1, gy1, gx2, gy2, 6 * px + 4, 6 * py + 2)
    } else {
        mix_at(c0, c1, c2, gx0, gy0, gx1, gy1, gx2, gy2, 6 * px + 4, 6 * py + 4)
    }
}

/// The mixed color at an interior point, with the cross components given.
pub(crate) fn mix_at_point(
    c0: u32,
    c1: u32,
    c2: u32,
    x0: i64,
    y0: i64,
    x1: i64,
    y1: i64,
    x2: i64,
    y2: i64,
    px: i64,
    py: i64,
) -> (r: u32)
    requires
        -0x20_0000_0000 <= x0 <= 0x20_0000_0000,
        -0x20_0000_0000 <= y0 <= 0x20_0000_0000,
        -0x20_0000_0000 <= x1 <= 0x20_0000_0000,
        -0x20_0000_0000 <= y1 <= 0x20_0000_0000,
        -0x20_0000_0000 <= x2 <= 0x20_0000_0000,
        -0x20_0000_0000 <= y2 <= 0x20_0000_0000,
        -0x20_0000_0000 <= px <= 0x20_0000_0000,
        -0x20_0000_0000 <= py <= 0x20_0000_0000,
        bary_nonneg(
            x0 as int,
            y0 as int,
            x1 as int,
            y1 as int,
            x2 as int,
            y2 as int,
            px as int,
            py as int,
        ),
    ensures
        r == mix_at(
            c0,
            c1,
            c2,
            x0 as int,
            y0 as int,
            x1 as int,
            y1 as int,
            x2 as int,
            y2 as int,
            px as int,
            py as int,
        ),
{
    let (cx, cy, cz) = cross_at(x0, y0, x1, y1, x2, y2, px, py);
    if cz > 0 {
        mix3(c0, c1, c2, cz - cx - cy, cx, cy, cz)
    } else {
        mix3(c0, c1, c2, 0 - (cz - cx - cy), 0 - cx, 0 - cy, 0 - cz)
    }
}

/// The sample count of a pixel against a triangle together with the mixed
/// color of the first covered sample.
pub(crate) fn tri_mix_count_at(
    c0: u32,
    c1: u32,
    c2: u32,
    x0: i32,
    y0: i32,
    x1: i32,
    y1: i32,
    x2: i32,
    y2: i32,
    px: u32,
    py: u32,
) -> (r: (u8, u32))
    requires
        px <= 0x7fff_ffff,
        py <= 0x7fff_ffff,
    ensures
        r.0 as int == tri_sample_count(
            x0 as int,
            y0 as int,
            x1 as int,
            y1 as int,
            x2 as int,
            y2 as int,
            px as int,
            py as int,
        ),
        r.0 <= 4,
        r.0 > 0 ==> r.1 == tri_first_color(
            c0,
            c1,
            c2,
            x0 as int,
            y0 as int,
            x1 as int,
            y1 as int,
            x2 as int,
            y2 as int,
            px as int,
            py as int,
        ),
{
    let gx0 = 6 * (x0 as i64) + 3;
    let gy0 = 6 * (y0 as i64) + 3;
    let gx1 = 6 * (x1 as i64) + 3;
    let gy1 = 6 * (y1 as i64) + 3;
    let gx2 = 6 * (x2 as i64) + 3;
    let gy2 = 6 * (y2 as i64) + 3;
    let sx1 = 6 * (px as i64) + 2;
    let sx2 = 6 * (px as i64) + 4;
    let sy1 = 6 * (py as i64) + 2;
    let sy2 = 6 * (py as i64) + 4;
    let mut c: u8 = 0;
    let mut col: u32 = 0;
    let mut seen = false;
    if point_in_triangle(gx0, gy0, gx1, gy1, gx2, gy2, sx1, sy1) {
        c = c + 1;
        col = mix_at_point(c0, c1, c2, gx0, gy0, gx1, gy1, gx2, gy2, sx1, sy1);
        seen = true;
    }
    if point_in_triangle(gx0, gy0, gx1, gy1, gx2, gy2, sx1, sy2) {
        c = c + 1;
        if !seen {
            col = mix_at_point(c0, c1, c2, gx0, gy0, gx1, gy1, gx2, gy2, sx1, sy2);
            seen = true;
        }
    }
    if point_in_triangle(gx0, gy0, gx1, gy1, gx2, gy2, sx2, sy1) {
        c = c + 1;
        if !seen {
            col = mix_at_point(c0, c1, c2, gx0, gy0, gx1, gy1, gx2, gy2, sx2, sy1);
            seen = true;
        }
    }
    if point_in_triangle(gx0, gy0, gx1, gy1, gx2, gy2, sx2, sy2) {
        c = c + 1;
        if !seen {
            col = mix_at_point(c0, c1, c2, gx0, gy0, gx1, gy1, gx2, gy2, sx2, sy2);
            seen = true;
        }
    }
    (c, col)
}

} // verus!
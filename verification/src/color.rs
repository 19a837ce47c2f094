//! Pixel and color operations.
//!
//! A pixel is a 32-bit word laid out, from least to most significant byte,
//! as red, green, blue, alpha.

use vstd::prelude::*;

verus! {

/// Red channel: the least significant byte.
pub open spec fn red_of(c: u32) -> u32 {
    c & 0xff
}

/// Green channel: the second byte.
pub open spec fn green_of(c: u32) -> u32 {
    (c >> 8) & 0xff
}

/// Blue channel: the third byte.
pub open spec fn blue_of(c: u32) -> u32 {
    (c >> 16) & 0xff
}

/// Alpha channel: the most significant byte.
pub open spec fn alpha_of(c: u32) -> u32 {
    (c >> 24) & 0xff
}

/// Packs the low byte of each channel back into one 32-bit pixel.
pub open spec fn spec_rgba2color(r: u32, g: u32, b: u32, a: u32) -> u32 {
    (r & 0x0000_00ff) | ((g << 8) & 0x0000_ff00) | ((b << 16) & 0x00ff_0000) | ((a << 24)
        & 0xff00_0000)
}

/// Every channel is a byte value.
pub proof fn lemma_channel_bounds(c: u32)
    ensures
        red_of(c) <= 0xff,
        green_of(c) <= 0xff,
        blue_of(c) <= 0xff,
        alpha_of(c) <= 0xff,
{
    assert(c & 0xff <= 0xff && (c >> 8) & 0xff <= 0xff && (c >> 16) & 0xff <= 0xff && (c >> 24)
        & 0xff <= 0xff) by (bit_vector);
}

/// Packing byte values and unpacking them returns the same bytes.
pub proof fn lemma_pack_unpack(r: u32, g: u32, b: u32, a: u32)
    requires
        r <= 0xff,
        g <= 0xff,
        b <= 0xff,
        a <= 0xff,
    ensures
        red_of(spec_rgba2color(r, g, b, a)) == r,
        green_of(spec_rgba2color(r, g, b, a)) == g,
        blue_of(spec_rgba2color(r, g, b, a)) == b,
        alpha_of(spec_rgba2color(r, g, b, a)) == a,
{
    let c = spec_rgba2color(r, g, b, a);
    assert(r <= 0xff && g <= 0xff && b <= 0xff && a <= 0xff ==> ((r & 0x0000_00ff) | ((g << 8)
        & 0x0000_ff00) | ((b << 16) & 0x00ff_0000) | ((a << 24) & 0xff00_0000)) & 0xff == r && (((r
        & 0x0000_00ff) | ((g << 8) & 0x0000_ff00) | ((b << 16) & 0x00ff_0000) | ((a << 24)
        & 0xff00_0000)) >> 8) & 0xff == g && (((r & 0x0000_00ff) | ((g << 8) & 0x0000_ff00) | ((b
        << 16) & 0x00ff_0000) | ((a << 24) & 0xff00_0000)) >> 16) & 0xff == b && (((r
        & 0x0000_00ff) | ((g << 8) & 0x0000_ff00) | ((b << 16) & 0x00ff_0000) | ((a << 24)
        & 0xff00_0000)) >> 24) & 0xff == a) by (bit_vector);
}

pub fn red_part(color: u32) -> (r: u32)
    ensures
        r == red_of(color),
{
    color & 0xff
}

pub fn green_part(color: u32) -> (r: u32)
    ensures
        r == green_of(color),
{
    (color >> 8) & 0xff
}

pub fn blue_part(color: u32) -> (r: u32)
    ensures
        r == blue_of(color),
{
    (color >> 16) & 0xff
}

pub fn alpha_part(color: u32) -> (r: u32)
    ensures
        r == alpha_of(color),
{
    (color >> 24) & 0xff
}

pub fn rgba2color(r: u32, g: u32, b: u32, a: u32) -> (c: u32)
    ensures
        c == spec_rgba2color(r, g, b, a),
{
    (r & 0x0000_00ff) | ((g << 8) & 0x0000_ff00) | ((b << 16) & 0x00ff_0000) | ((a << 24)
        & 0xff00_0000)
}

/// One channel of source-over blending: `(src·a + (255 − a)·dst) / 255`,
/// with truncating integer division.
pub open spec fn blend_channel(dst: int, src: int, a: int) -> int {
    (src * a + (255 - a) * dst) / 255
}

/// Source-over blending of `top` onto `bottom`: each of red, green and blue
/// is blended by `top`'s alpha; `bottom`'s alpha is preserved.
pub open spec fn spec_blend(bottom: u32, top: u32) -> u32 {
    spec_rgba2color(
        blend_channel(red_of(bottom) as int, red_of(top) as int, alpha_of(top) as int) as u32,
        blend_channel(green_of(bottom) as int, green_of(top) as int, alpha_of(top) as int) as u32,
        blend_channel(blue_of(bottom) as int, blue_of(top) as int, alpha_of(top) as int) as u32,
        alpha_of(bottom),
    )
}

/// The product of two byte values stays well under `u32::MAX`.
pub proof fn lemma_mul_byte_bounds(x: int, y: int)
    requires
        0 <= x <= 255,
        0 <= y <= 255,
    ensures
        0 <= x * y <= 255 * 255,
{
    assert(0 <= x * y <= 255 * 255) by (nonlinear_arith)
        requires
            0 <= x <= 255 && 0 <= y <= 255,
    ;
}

/// A blended channel of byte inputs is again a byte value.
pub proof fn lemma_blend_channel_bounds(dst: int, src: int, a: int)
    requires
        0 <= dst <= 255,
        0 <= src <= 255,
        0 <= a <= 255,
    ensures
        0 <= blend_channel(dst, src, a) <= 255,
{
    assert(src * a + (255 - a) * dst <= 255 * 255) by (nonlinear_arith)
        requires
            0 <= dst <= 255 && 0 <= src <= 255 && 0 <= a <= 255,
    ;
    assert(src * a + (255 - a) * dst >= 0) by (nonlinear_arith)
        requires
            0 <= dst <= 255 && 0 <= src <= 255 && 0 <= a <= 255,
    ;
}

/// Source-over blend of `top_color` onto `bottom_color` in place.
pub fn blend_color(bottom_color: &mut u32, top_color: u32)
    ensures
        *final(bottom_color) == spec_blend(*old(bottom_color), top_color),
{
    proof {
        lemma_channel_bounds(*bottom_color);
        lemma_channel_bounds(top_color);
    }
    let a = alpha_part(top_color);
    let tr = red_part(top_color);
    let tg = green_part(top_color);
    let tb = blue_part(top_color);
    let br = red_part(*bottom_color);
    let bg = green_part(*bottom_color);
    let bb = blue_part(*bottom_color);
    assert(tr * a + (255 - a) * br <= 255 * 255 && tg * a + (255 - a) * bg <= 255 * 255 && tb * a
        + (255 - a) * bb <= 255 * 255) by (nonlinear_arith)
        requires
            tr <= 255 && tg <= 255 && tb <= 255 && br <= 255 && bg <= 255 && bb <= 255 && a <= 255,
    ;
    let r = (tr * a + (255 - a) * br) / 255;
    let g = (tg * a + (255 - a) * bg) / 255;
    let b = (tb * a + (255 - a) * bb) / 255;
    proof {
        lemma_blend_channel_bounds(
            red_of(*bottom_color) as int,
            red_of(top_color) as int,
            a as int,
        );
        lemma_blend_channel_bounds(
            green_of(*bottom_color) as int,
            green_of(top_color) as int,
            a as int,
        );
        lemma_blend_channel_bounds(
            blue_of(*bottom_color) as int,
            blue_of(top_color) as int,
            a as int,
        );
    }
    *bottom_color = rgba2color(r, g, b, alpha_part(*bottom_color));
}

/// The color an antialiased write stores: the input color with its alpha
/// replaced by the coverage fraction `count / 4` of the base alpha — the
/// color's own alpha when blending is on, opaque otherwise.
pub open spec fn spec_aa_color(count: int, color: u32, blending: bool) -> u32 {
    let base = if blending {
        alpha_of(color) as int
    } else {
        255
    };
    let alpha = count * base / 4;
    (color & 0x00ff_ffff) | ((alpha as u32) << 24)
}

/// Scales the color's alpha by the sample coverage `count / 4`.
pub fn aa_color(count: u8, color: u32, blending: bool) -> (r: u32)
    requires
        count <= 4,
    ensures
        r == spec_aa_color(count as int, color, blending),
{
    proof {
        lemma_channel_bounds(color);
    }
    let base: u32 = if blending {
        (color >> 24) & 0xff
    } else {
        255
    };
    assert((count as u32) * base <= 4 * 255) by (nonlinear_arith)
        requires
            count <= 4 && base <= 255,
    ;
    let alpha = (count as u32) * base / 4;
    (color & 0x00ff_ffff) | (alpha << 24)
}

/// The antialiased alpha never exceeds the base alpha (the color's own
/// alpha with blending on, 255 with blending off), and the color channels
/// are preserved.
pub proof fn lemma_aa_color_bounds(count: int, color: u32, blending: bool)
    requires
        0 <= count <= 4,
    ensures
        alpha_of(spec_aa_color(count, color, blending)) <= (if blending {
            alpha_of(color)
        } else {
            255
        }),
        red_of(spec_aa_color(count, color, blending)) == red_of(color),
        green_of(spec_aa_color(count, color, blending)) == green_of(color),
        blue_of(spec_aa_color(count, color, blending)) == blue_of(color),
{
    lemma_channel_bounds(color);
    let base = if blending {
        alpha_of(color) as int
    } else {
        255
    };
    let alpha = count * base / 4;
    assert(count * base <= 4 * base && 0 <= count * base) by (nonlinear_arith)
        requires
            0 <= count <= 4 && base >= 0,
    ;
    vstd::arithmetic::div_mod::lemma_div_pos_is_pos(count * base, 4);
    vstd::arithmetic::div_mod::lemma_div_is_ordered(count * base, 4 * base, 4);
    assert((4 * base) / 4 == base) by (nonlinear_arith)
        requires
            base >= 0,
    ;
    let a32 = alpha as u32;
    assert(a32 <= 255 ==> ((color & 0x00ff_ffff) | (a32 << 24)) & 0xff == color & 0xff && (((color
        & 0x00ff_ffff) | (a32 << 24)) >> 8) & 0xff == (color >> 8) & 0xff && (((color
        & 0x00ff_ffff) | (a32 << 24)) >> 16) & 0xff == (color >> 16) & 0xff && (((color
        & 0x00ff_ffff) | (a32 << 24)) >> 24) & 0xff == a32) by (bit_vector);
}

/// Blending a fully transparent color changes nothing.
pub proof fn lemma_blend_transparent(bottom: u32, top: u32)
    requires
        alpha_of(top) == 0,
    ensures
        spec_blend(bottom, top) == bottom,
{
    lemma_channel_bounds(bottom);
    lemma_channel_bounds(top);
    assert(blend_channel(red_of(bottom) as int, red_of(top) as int, 0) == red_of(bottom));
    assert(blend_channel(green_of(bottom) as int, green_of(top) as int, 0) == green_of(bottom));
    assert(blend_channel(blue_of(bottom) as int, blue_of(top) as int, 0) == blue_of(bottom));
    let c = bottom;
    assert(spec_rgba2color(c & 0xff, (c >> 8) & 0xff, (c >> 16) & 0xff, (c >> 24) & 0xff) == c)
        by (bit_vector);
}

/// Blending a fully opaque color replaces red, green and blue and keeps the
/// bottom alpha.
pub proof fn lemma_blend_opaque(bottom: u32, top: u32)
    requires
        alpha_of(top) == 255,
    ensures
        red_of(spec_blend(bottom, top)) == red_of(top),
        green_of(spec_blend(bottom, top)) == green_of(top),
        blue_of(spec_blend(bottom, top)) == blue_of(top),
        alpha_of(spec_blend(bottom, top)) == alpha_of(bottom),
{
    lemma_channel_bounds(bottom);
    lemma_channel_bounds(top);
    assert(blend_channel(red_of(bottom) as int, red_of(top) as int, 255) == red_of(top));
    assert(blend_channel(green_of(bottom) as int, green_of(top) as int, 255) == green_of(top));
    assert(blend_channel(blue_of(bottom) as int, blue_of(top) as int, 255) == blue_of(top));
    lemma_pack_unpack(red_of(top), green_of(top), blue_of(top), alpha_of(bottom));
}

} // verus!

//! Cohen–Sutherland box clipping of line segments.
//!
//! End points are classified with the four outcode tests (left, right,
//! bottom, top) against the box `[0, w − 1/10] × [0, h − 1/10]`: a segment
//! whose end points are both inside is returned unchanged, one whose end
//! points share an outside half-plane is rejected, and the rest are clipped
//! exactly, by intersecting the segment with the offending box edges in
//! rational arithmetic (all coordinates are scaled by ten, which makes the
//! box bounds integers). The fractional clipped end points are truncated to
//! integers, which therefore always lie inside `[0, w) × [0, h)`.

use vstd::prelude::*;

verus! {

/// `an/ad ≤ bn/bd`, for positive denominators.
pub open spec fn frac_le(an: int, ad: int, bn: int, bd: int) -> bool {
    an * bd <= bn * ad
}

/// The larger of two fractions with positive denominators.
pub open spec fn fmax(a: (int, int), b: (int, int)) -> (int, int) {
    if frac_le(a.0, a.1, b.0, b.1) {
        b
    } else {
        a
    }
}

/// The smaller of two fractions with positive denominators.
pub open spec fn fmin(a: (int, int), b: (int, int)) -> (int, int) {
    if frac_le(a.0, a.1, b.0, b.1) {
        a
    } else {
        b
    }
}

/// The segment parameter at which coordinate `c + t·d` enters `[0, m]`,
/// as a fraction with positive denominator. Only meaningful for `d != 0`.
pub open spec fn axis_enter(c: int, d: int, m: int) -> (int, int) {
    if d > 0 {
        (0 - c, d)
    } else {
        (c - m, 0 - d)
    }
}

/// The segment parameter at which coordinate `c + t·d` leaves `[0, m]`.
pub open spec fn axis_exit(c: int, d: int, m: int) -> (int, int) {
    if d > 0 {
        (m - c, d)
    } else {
        (c, 0 - d)
    }
}

/// The largest entering parameter of the segment, at least 0.
pub open spec fn clip_t_lo(cx: int, cy: int, dx: int, dy: int, xmax: int, ymax: int) -> (int, int) {
    let a = (0int, 1int);
    let b = if dx != 0 {
        fmax(a, axis_enter(cx, dx, xmax))
    } else {
        a
    };
    if dy != 0 {
        fmax(b, axis_enter(cy, dy, ymax))
    } else {
        b
    }
}

/// The smallest leaving parameter of the segment, at most 1.
pub open spec fn clip_t_hi(cx: int, cy: int, dx: int, dy: int, xmax: int, ymax: int) -> (int, int) {
    let a = (1int, 1int);
    let b = if dx != 0 {
        fmin(a, axis_exit(cx, dx, xmax))
    } else {
        a
    };
    if dy != 0 {
        fmin(b, axis_exit(cy, dy, ymax))
    } else {
        b
    }
}

/// The pixel coordinate of `(c + t·d) / 10` at parameter `t = tn/td`,
/// truncated.
pub open spec fn clip_point(c: int, d: int, tn: int, td: int) -> int {
    (c * td + tn * d) / (10 * td)
}

/// Whether the scaled point (cx, cy) lies inside the scaled clip box.
pub open spec fn cs_inside(cx: int, cy: int, xmax: int, ymax: int) -> bool {
    0 <= cx <= xmax && 0 <= cy <= ymax
}

/// Whether the two scaled end points share an outside half-plane (a
/// non-zero outcode bit): such a segment misses the box entirely.
pub open spec fn cs_share_bit(
    cx0: int,
    cy0: int,
    cx1: int,
    cy1: int,
    xmax: int,
    ymax: int,
) -> bool {
    ||| (cx0 < 0 && cx1 < 0)
    ||| (cx0 > xmax && cx1 > xmax)
    ||| (cy0 < 0 && cy1 < 0)
    ||| (cy0 > ymax && cy1 > ymax)
}

/// The clipped segment: unchanged if fully inside the box
/// `[0, w − 1/10] × [0, h − 1/10]`, `None` if fully outside, and otherwise
/// the truncated exact intersection of the segment with the box.
pub open spec fn spec_box_clip(x0: int, y0: int, x1: int, y1: int, w: int, h: int) -> Option<
    (int, int, int, int),
> {
    if w <= 0 || h <= 0 {
        None
    } else {
        let xmax = 10 * w - 1;
        let ymax = 10 * h - 1;
        let cx0 = 10 * x0;
        let cy0 = 10 * y0;
        let cx1 = 10 * x1;
        let cy1 = 10 * y1;
        if cs_inside(cx0, cy0, xmax, ymax) && cs_inside(cx1, cy1, xmax, ymax) {
            Some((x0, y0, x1, y1))
        } else if cs_share_bit(cx0, cy0, cx1, cy1, xmax, ymax) {
            None
        } else {
            let dx = cx1 - cx0;
            let dy = cy1 - cy0;
            let lo = clip_t_lo(cx0, cy0, dx, dy, xmax, ymax);
            let hi = clip_t_hi(cx0, cy0, dx, dy, xmax, ymax);
            if !frac_le(lo.0, lo.1, hi.0, hi.1) {
                None
            } else {
                Some(
                    (
                        clip_point(cx0, dx, lo.0, lo.1),
                        clip_point(cy0, dy, lo.0, lo.1),
                        clip_point(cx0, dx, hi.0, hi.1),
                        clip_point(cy0, dy, hi.0, hi.1),
                    ),
                )
            }
        }
    }
}

/// Magnitude bound on scaled coordinates, parameters and deltas.
pub open spec fn small(n: int) -> bool {
    -0x40_0000_0000 <= n <= 0x40_0000_0000
}

/// Compares two fractions with positive denominators.
fn frac_le_exec(an: i128, ad: i128, bn: i128, bd: i128) -> (r: bool)
    requires
        small(an as int),
        small(bn as int),
        1 <= ad,
        small(ad as int),
        1 <= bd,
        small(bd as int),
    ensures
        r == frac_le(an as int, ad as int, bn as int, bd as int),
{
    proof {
        lemma_small_product(an as int, bd as int);
        lemma_small_product(bn as int, ad as int);
    }
    an * bd <= bn * ad
}

/// The product of two bounded quantities stays far inside `i128`.
proof fn lemma_small_product(a: int, b: int)
    requires
        small(a),
        small(b),
    ensures
        -0x1000_0000_0000_0000_0000 <= a * b <= 0x1000_0000_0000_0000_0000,
{
    assert((-0x1000_0000_0000_0000_0000) <= a * b <= 0x1000_0000_0000_0000_0000)
        by (nonlinear_arith)
        requires
            small(a) && small(b),
    ;
}

/// The larger of two fractions dominates both (for positive
/// denominators), and keeps a positive denominator.
proof fn lemma_fmax_bounds(a: (int, int), b: (int, int))
    requires
        a.1 >= 1,
        b.1 >= 1,
    ensures
        frac_le(a.0, a.1, fmax(a, b).0, fmax(a, b).1),
        frac_le(b.0, b.1, fmax(a, b).0, fmax(a, b).1),
        fmax(a, b).1 >= 1,
        fmax(a, b) == a || fmax(a, b) == b,
{
}

/// The smaller of two fractions is dominated by both.
proof fn lemma_fmin_bounds(a: (int, int), b: (int, int))
    requires
        a.1 >= 1,
        b.1 >= 1,
    ensures
        frac_le(fmin(a, b).0, fmin(a, b).1, a.0, a.1),
        frac_le(fmin(a, b).0, fmin(a, b).1, b.0, b.1),
        fmin(a, b).1 >= 1,
        fmin(a, b) == a || fmin(a, b) == b,
{
}

/// Fraction comparison is transitive (for positive denominators).
proof fn lemma_frac_le_trans(an: int, ad: int, bn: int, bd: int, cn: int, cd: int)
    requires
        ad >= 1,
        bd >= 1,
        cd >= 1,
        frac_le(an, ad, bn, bd),
        frac_le(bn, bd, cn, cd),
    ensures
        frac_le(an, ad, cn, cd),
{
    assert(an * bd * cd <= bn * ad * cd) by (nonlinear_arith)
        requires
            an * bd <= bn * ad && cd >= 1,
    ;
    assert(bn * cd * ad <= cn * bd * ad) by (nonlinear_arith)
        requires
            bn * cd <= cn * bd && ad >= 1,
    ;
    assert(an * cd <= cn * ad) by (nonlinear_arith)
        requires
            an * bd * cd <= bn * ad * cd && bn * cd * ad <= cn * bd * ad && bd >= 1,
    ;
}

/// A parameter between the entering and leaving parameters of an axis keeps
/// the axis coordinate inside `[0, m]` (as a fraction over `td`).
proof fn lemma_axis_point_bounds(c: int, d: int, m: int, tn: int, td: int)
    requires
        td >= 1,
        m >= 0,
        d == 0 ==> 0 <= c <= m,
        d != 0 ==> frac_le(axis_enter(c, d, m).0, axis_enter(c, d, m).1, tn, td),
        d != 0 ==> frac_le(tn, td, axis_exit(c, d, m).0, axis_exit(c, d, m).1),
    ensures
        0 <= c * td + tn * d,
        c * td + tn * d <= m * td,
{
    if d == 0 {
        assert(0 <= c * td && c * td <= m * td && tn * d == 0) by (nonlinear_arith)
            requires
                0 <= c <= m && td >= 1 && d == 0,
        ;
    } else if d > 0 {
        assert((0 - c) * td <= tn * d);
        assert(tn * d <= (m - c) * td);
        assert(0 <= c * td + tn * d && c * td + tn * d <= m * td) by (nonlinear_arith)
            requires
                (0 - c) * td <= tn * d && tn * d <= (m - c) * td,
        ;
    } else {
        assert((c - m) * td <= tn * (0 - d));
        assert(tn * (0 - d) <= c * td);
        assert(0 <= c * td + tn * d && c * td + tn * d <= m * td) by (nonlinear_arith)
            requires
                (c - m) * td <= tn * (0 - d) && tn * (0 - d) <= c * td,
        ;
    }
}

/// Compares two fractions with positive denominators.
fn fmax_exec(a: (i128, i128), b: (i128, i128)) -> (r: (i128, i128))
    requires
        small(a.0 as int),
        1 <= a.1,
        small(a.1 as int),
        small(b.0 as int),
        1 <= b.1,
        small(b.1 as int),
    ensures
        (r.0 as int, r.1 as int) == fmax((a.0 as int, a.1 as int), (b.0 as int, b.1 as int)),
        r == a || r == b,
{
    if frac_le_exec(a.0, a.1, b.0, b.1) {
        b
    } else {
        a
    }
}

/// The smaller of two fractions with positive denominators.
fn fmin_exec(a: (i128, i128), b: (i128, i128)) -> (r: (i128, i128))
    requires
        small(a.0 as int),
        1 <= a.1,
        small(a.1 as int),
        small(b.0 as int),
        1 <= b.1,
        small(b.1 as int),
    ensures
        (r.0 as int, r.1 as int) == fmin((a.0 as int, a.1 as int), (b.0 as int, b.1 as int)),
        r == a || r == b,
{
    if frac_le_exec(a.0, a.1, b.0, b.1) {
        a
    } else {
        b
    }
}

/// The truncated coordinate of the clipped point at parameter `tn/td`,
/// which stays inside `[0, m/10]`.
fn clip_point_exec(c: i128, d: i128, tn: i128, td: i128, m: i128) -> (r: i128)
    requires
        small(c as int),
        small(d as int),
        small(tn as int),
        small(m as int),
        1 <= td,
        small(td as int),
        0 <= m,
        0 <= c * td + tn * d,
        c * td + tn * d <= m * td,
    ensures
        r as int == clip_point(c as int, d as int, tn as int, td as int),
        0 <= r,
        10 * r <= m,
{
    proof {
        lemma_small_product(c as int, td as int);
        lemma_small_product(tn as int, d as int);
        lemma_small_product(m as int, td as int);
    }
    let num = c * td + tn * d;
    let den = 10 * td;
    let q = num / den;
    proof {
        let numi = num as int;
        let deni = den as int;
        vstd::arithmetic::div_mod::lemma_fundamental_div_mod(numi, deni);
        vstd::arithmetic::div_mod::lemma_div_pos_is_pos(numi, deni);
        vstd::arithmetic::div_mod::lemma_mod_bound(numi, deni);
        let qq = numi / deni;
        assert(deni * qq <= numi);
        assert(10 * qq * (td as int) <= (m as int) * (td as int)) by (nonlinear_arith)
            requires
                deni * qq <= numi && numi <= (m as int) * (td as int) && deni == 10 * (td as int),
        ;
        assert(10 * qq <= m as int) by (nonlinear_arith)
            requires
                10 * qq * (td as int) <= (m as int) * (td as int) && td as int >= 1,
        ;
    }
    q
}

/// Clips the segment from (x0, y0) to (x1, y1) against the box
/// `[0, w − 1/10] × [0, h − 1/10]`. A segment fully inside is returned
/// unchanged; one fully outside yields `None`; the clipped end points
/// always lie inside `[0, w) × [0, h)`.
#[verifier::rlimit(60)]
pub fn box_clip(x0: i32, y0: i32, x1: i32, y1: i32, w: u32, h: u32) -> (r: Option<
    (i32, i32, i32, i32),
>)
    requires
        w <= 0x7fff_ffff,
        h <= 0x7fff_ffff,
    ensures
        r is None <==> spec_box_clip(x0 as int, y0 as int, x1 as int, y1 as int, w as int, h as int)
            is None,
        r matches Some(p) ==> spec_box_clip(
            x0 as int,
            y0 as int,
            x1 as int,
            y1 as int,
            w as int,
            h as int,
        ) == Some((p.0 as int, p.1 as int, p.2 as int, p.3 as int)),
        r matches Some(p) ==> 0 <= p.0 < w && 0 <= p.1 < h && 0 <= p.2 < w && 0 <= p.3 < h,
{
    let ghost gx0 = x0 as int;
    let ghost gy0 = y0 as int;
    let ghost gx1 = x1 as int;
    let ghost gy1 = y1 as int;
    if w == 0 || h == 0 {
        return None;
    }
    let xmax: i128 = 10 * (w as i128) - 1;
    let ymax: i128 = 10 * (h as i128) - 1;
    let cx0: i128 = 10 * (x0 as i128);
    let cy0: i128 = 10 * (y0 as i128);
    let cx1: i128 = 10 * (x1 as i128);
    let cy1: i128 = 10 * (y1 as i128);
    let inside0 = 0 <= cx0 && cx0 <= xmax && 0 <= cy0 && cy0 <= ymax;
    let inside1 = 0 <= cx1 && cx1 <= xmax && 0 <= cy1 && cy1 <= ymax;
    if inside0 && inside1 {
        return Some((x0, y0, x1, y1));
    }
    if (cx0 < 0 && cx1 < 0) || (cx0 > xmax && cx1 > xmax) || (cy0 < 0 && cy1 < 0) || (cy0 > ymax
        && cy1 > ymax) {
        return None;
    }
    let dx = cx1 - cx0;
    let dy = cy1 - cy0;
    let ghost exf = axis_enter(cx0 as int, dx as int, xmax as int);
    let ghost eyf = axis_enter(cy0 as int, dy as int, ymax as int);
    let ghost oxf = axis_exit(cx0 as int, dx as int, xmax as int);
    let ghost oyf = axis_exit(cy0 as int, dy as int, ymax as int);
    let la: (i128, i128) = (0, 1);
    let lb = if dx != 0 {
        let ex = if dx > 0 {
            (0 - cx0, dx)
        } else {
            (cx0 - xmax, 0 - dx)
        };
        fmax_exec(la, ex)
    } else {
        la
    };
    let lo = if dy != 0 {
        let ey = if dy > 0 {
            (0 - cy0, dy)
        } else {
            (cy0 - ymax, 0 - dy)
        };
        fmax_exec(lb, ey)
    } else {
        lb
    };
    let ha: (i128, i128) = (1, 1);
    let hb = if dx != 0 {
        let ox = if dx > 0 {
            (xmax - cx0, dx)
        } else {
            (cx0, 0 - dx)
        };
        fmin_exec(ha, ox)
    } else {
        ha
    };
    let hi = if dy != 0 {
        let oy = if dy > 0 {
            (ymax - cy0, dy)
        } else {
            (cy0, 0 - dy)
        };
        fmin_exec(hb, oy)
    } else {
        hb
    };
    if !frac_le_exec(lo.0, lo.1, hi.0, hi.1) {
        return None;
    }
    proof {
        let loi = (lo.0 as int, lo.1 as int);
        let hii = (hi.0 as int, hi.1 as int);
        let lbi = (lb.0 as int, lb.1 as int);
        let hbi = (hb.0 as int, hb.1 as int);
        let a0 = (0int, 1int);
        let a1 = (1int, 1int);
        // The low parameter dominates each entering parameter, the high one
        // is dominated by each leaving parameter, and low ≤ high; so both
        // parameters keep both coordinates inside the box.
        if dx as int != 0 {
            lemma_fmax_bounds(a0, exf);
            lemma_fmin_bounds(a1, oxf);
            if dy as int != 0 {
                lemma_fmax_bounds(lbi, eyf);
                lemma_frac_le_trans(exf.0, exf.1, lbi.0, lbi.1, loi.0, loi.1);
                lemma_fmin_bounds(hbi, oyf);
                lemma_frac_le_trans(hii.0, hii.1, hbi.0, hbi.1, oxf.0, oxf.1);
            }
            lemma_frac_le_trans(loi.0, loi.1, hii.0, hii.1, oxf.0, oxf.1);
            lemma_frac_le_trans(exf.0, exf.1, loi.0, loi.1, hii.0, hii.1);
        }
        if dy as int != 0 {
            lemma_frac_le_trans(loi.0, loi.1, hii.0, hii.1, oyf.0, oyf.1);
            lemma_frac_le_trans(eyf.0, eyf.1, loi.0, loi.1, hii.0, hii.1);
        }
        lemma_axis_point_bounds(cx0 as int, dx as int, xmax as int, loi.0, loi.1);
        lemma_axis_point_bounds(cy0 as int, dy as int, ymax as int, loi.0, loi.1);
        lemma_axis_point_bounds(cx0 as int, dx as int, xmax as int, hii.0, hii.1);
        lemma_axis_point_bounds(cy0 as int, dy as int, ymax as int, hii.0, hii.1);
    }
    let rx0 = clip_point_exec(cx0, dx, lo.0, lo.1, xmax);
    let ry0 = clip_point_exec(cy0, dy, lo.0, lo.1, ymax);
    let rx1 = clip_point_exec(cx0, dx, hi.0, hi.1, xmax);
    let ry1 = clip_point_exec(cy0, dy, hi.0, hi.1, ymax);
    Some((rx0 as i32, ry0 as i32, rx1 as i32, ry1 as i32))
}

/// A segment whose end points both lie inside the clip box (every
/// coordinate within `[0, w − 1]` and `[0, h − 1]`) is returned unchanged.
pub proof fn lemma_clip_inside_unchanged(x0: int, y0: int, x1: int, y1: int, w: int, h: int)
    requires
        w >= 1,
        h >= 1,
        0 <= x0 < w,
        0 <= y0 < h,
        0 <= x1 < w,
        0 <= y1 < h,
    ensures
        spec_box_clip(x0, y0, x1, y1, w, h) == Some((x0, y0, x1, y1)),
{
}

/// A segment whose end points share an outside half-plane of the clip box
/// is rejected.
pub proof fn lemma_clip_outside_rejected(x0: int, y0: int, x1: int, y1: int, w: int, h: int)
    requires
        w >= 1,
        h >= 1,
        (x0 < 0 && x1 < 0) || (x0 >= w && x1 >= w) || (y0 < 0 && y1 < 0) || (y0 >= h && y1 >= h),
    ensures
        spec_box_clip(x0, y0, x1, y1, w, h) is None,
{
}

/// `a/b == c/d` for positive denominators and proportional numerators.
proof fn lemma_div_proportional(a: int, b: int, c: int, d: int)
    requires
        b >= 1,
        d >= 1,
        a * d == c * b,
    ensures
        a / b == c / d,
{
    vstd::arithmetic::div_mod::lemma_fundamental_div_mod(a, b);
    vstd::arithmetic::div_mod::lemma_mod_bound(a, b);
    vstd::arithmetic::div_mod::lemma_fundamental_div_mod(c, d);
    vstd::arithmetic::div_mod::lemma_mod_bound(c, d);
    let q1 = a / b;
    let r1 = a % b;
    let q2 = c / d;
    let r2 = c % d;
    assert(q1 == q2) by (nonlinear_arith)
        requires
            a == b * q1 + r1 && 0 <= r1 < b && c == d * q2 + r2 && 0 <= r2 < d && a * d == c * b
                && b >= 1 && d >= 1,
    ;
}

/// Two fractions with the same value (cross-products equal).
pub open spec fn frac_eq(a: (int, int), b: (int, int)) -> bool {
    a.0 * b.1 == b.0 * a.1
}

/// The complement `1 − t` of a fraction, over the same denominator.
pub open spec fn compl(a: (int, int)) -> (int, int) {
    (a.1 - a.0, a.1)
}

/// Complementing reverses fraction comparison.
proof fn lemma_compl_le(a: (int, int), b: (int, int))
    requires
        a.1 >= 1,
        b.1 >= 1,
    ensures
        frac_le(compl(a).0, compl(a).1, compl(b).0, compl(b).1) <==> frac_le(b.0, b.1, a.0, a.1),
{
    assert((a.1 - a.0) * b.1 <= (b.1 - b.0) * a.1 <==> b.0 * a.1 <= a.0 * b.1)
        by (nonlinear_arith);
}

/// Comparison respects fraction values.
proof fn lemma_frac_le_congruence(a: (int, int), a2: (int, int), b: (int, int))
    requires
        a.1 >= 1,
        a2.1 >= 1,
        b.1 >= 1,
        frac_eq(a, a2),
    ensures
        frac_le(a.0, a.1, b.0, b.1) <==> frac_le(a2.0, a2.1, b.0, b.1),
        frac_le(b.0, b.1, a.0, a.1) <==> frac_le(b.0, b.1, a2.0, a2.1),
{
    assert((a.0 * b.1 <= b.0 * a.1 <==> a2.0 * b.1 <= b.0 * a2.1) && (b.0 * a.1 <= a.0 * b.1 <==> b.0
        * a2.1 <= a2.0 * b.1)) by (nonlinear_arith)
        requires
            a.0 * a2.1 == a2.0 * a.1 && a.1 >= 1 && a2.1 >= 1 && b.1 >= 1,
    ;
}

/// The larger of complements has the value of the complement of the
/// smaller, even through a value-equal stand-in.
proof fn lemma_fmax_compl(aa: (int, int), a: (int, int), b: (int, int))
    requires
        a.1 >= 1,
        aa.1 >= 1,
        b.1 >= 1,
        frac_eq(aa, compl(a)),
    ensures
        frac_eq(fmax(aa, compl(b)), compl(fmin(a, b))),
        fmax(aa, compl(b)).1 >= 1,
{
    lemma_compl_le(a, b);
    lemma_compl_le(b, a);
    lemma_frac_le_congruence(aa, compl(a), compl(b));
    if frac_le(aa.0, aa.1, b.1 - b.0, b.1) {
        if frac_le(a.0, a.1, b.0, b.1) {
            // fmax is compl(b), fmin is a: their values agree because the
            // originals compare equal both ways.
            assert(frac_le(b.0, b.1, a.0, a.1));
            assert((b.1 - b.0) * a.1 == (a.1 - a.0) * b.1) by (nonlinear_arith)
                requires
                    a.0 * b.1 <= b.0 * a.1 && b.0 * a.1 <= a.0 * b.1,
            ;
        }
    } else {
        assert(frac_eq(aa, compl(a)));
    }
}

/// The clipped point is a function of the parameter's value.
proof fn lemma_clip_point_value(c: int, d: int, a: (int, int), b: (int, int))
    requires
        a.1 >= 1,
        b.1 >= 1,
        frac_eq(a, b),
    ensures
        clip_point(c, d, a.0, a.1) == clip_point(c, d, b.0, b.1),
{
    assert((c * a.1 + a.0 * d) * (10 * b.1) == (c * b.1 + b.0 * d) * (10 * a.1))
        by (nonlinear_arith)
        requires
            a.0 * b.1 == b.0 * a.1,
    ;
    lemma_div_proportional(c * a.1 + a.0 * d, 10 * a.1, c * b.1 + b.0 * d, 10 * b.1);
}

/// The clipped point of the reversed segment at the complementary
/// parameter is the clipped point of the segment at the parameter.
proof fn lemma_clip_point_reverse(c: int, d: int, t: (int, int))
    requires
        t.1 >= 1,
    ensures
        clip_point(c + d, 0 - d, compl(t).0, compl(t).1) == clip_point(c, d, t.0, t.1),
{
    assert(((c + d) * t.1 + (t.1 - t.0) * (0 - d)) == (c * t.1 + t.0 * d)) by (nonlinear_arith);
}

/// Box clipping treats a segment and its reversal alike: the clipped end
/// points come out swapped.
#[verifier::rlimit(100)]
pub proof fn lemma_clip_symmetric(x0: int, y0: int, x1: int, y1: int, w: int, h: int)
    ensures
        spec_box_clip(x1, y1, x0, y0, w, h) == (match spec_box_clip(x0, y0, x1, y1, w, h) {
            Some(p) => Some((p.2, p.3, p.0, p.1)),
            None => None,
        }),
{
    if w <= 0 || h <= 0 {
        return ;
    }
    let xmax = 10 * w - 1;
    let ymax = 10 * h - 1;
    let cx0 = 10 * x0;
    let cy0 = 10 * y0;
    let cx1 = 10 * x1;
    let cy1 = 10 * y1;
    if cs_inside(cx0, cy0, xmax, ymax) && cs_inside(cx1, cy1, xmax, ymax) {
        return ;
    }
    if cs_share_bit(cx0, cy0, cx1, cy1, xmax, ymax) {
        return ;
    }
    let dx = cx1 - cx0;
    let dy = cy1 - cy0;
    let lo = clip_t_lo(cx0, cy0, dx, dy, xmax, ymax);
    let hi = clip_t_hi(cx0, cy0, dx, dy, xmax, ymax);
    let rlo = clip_t_lo(cx1, cy1, 0 - dx, 0 - dy, xmax, ymax);
    let rhi = clip_t_hi(cx1, cy1, 0 - dx, 0 - dy, xmax, ymax);
    // The reversed entering and leaving parameters are the complements of
    // the leaving and entering parameters.
    assert(dx != 0 ==> axis_enter(cx1, 0 - dx, xmax) == compl(axis_exit(cx0, dx, xmax))
        && axis_exit(cx1, 0 - dx, xmax) == compl(axis_enter(cx0, dx, xmax)));
    assert(dy != 0 ==> axis_enter(cy1, 0 - dy, ymax) == compl(axis_exit(cy0, dy, ymax))
        && axis_exit(cy1, 0 - dy, ymax) == compl(axis_enter(cy0, dy, ymax)));
    let la = (0int, 1int);
    let ha = (1int, 1int);
    assert(la == compl(ha) && ha == compl(la));
    // Fold the two axes: the reversed low chain mirrors the high chain and
    // the reversed high chain mirrors the low chain, by value.
    let hb = if dx != 0 {
        fmin(ha, axis_exit(cx0, dx, xmax))
    } else {
        ha
    };
    let lb = if dx != 0 {
        fmax(la, axis_enter(cx0, dx, xmax))
    } else {
        la
    };
    let rlb = if dx != 0 {
        fmax(la, axis_enter(cx1, 0 - dx, xmax))
    } else {
        la
    };
    let rhb = if dx != 0 {
        fmin(ha, axis_exit(cx1, 0 - dx, xmax))
    } else {
        ha
    };
    if dx != 0 {
        lemma_fmax_compl(la, ha, axis_exit(cx0, dx, xmax));
        lemma_fmin_compl(ha, la, axis_enter(cx0, dx, xmax));
    }
    assert(frac_eq(rlb, compl(hb)) && rlb.1 >= 1 && hb.1 >= 1);
    assert(frac_eq(rhb, compl(lb)) && rhb.1 >= 1 && lb.1 >= 1);
    if dy != 0 {
        lemma_fmax_compl(rlb, hb, axis_exit(cy0, dy, ymax));
        lemma_fmin_compl(rhb, lb, axis_enter(cy0, dy, ymax));
    }
    assert(frac_eq(rlo, compl(hi)) && rlo.1 >= 1 && hi.1 >= 1);
    assert(frac_eq(rhi, compl(lo)) && rhi.1 >= 1 && lo.1 >= 1);
    // Acceptance agrees.
    lemma_frac_le_congruence(rlo, compl(hi), rhi);
    lemma_frac_le_congruence(rhi, compl(lo), compl(hi));
    lemma_compl_le(lo, hi);
    lemma_compl_le(hi, lo);
    assert(frac_le(rlo.0, rlo.1, rhi.0, rhi.1) <==> frac_le(lo.0, lo.1, hi.0, hi.1));
    if frac_le(lo.0, lo.1, hi.0, hi.1) {
        // The four clipped coordinates come out swapped.
        lemma_clip_point_value(cx1, 0 - dx, rlo, compl(hi));
        lemma_clip_point_value(cy1, 0 - dy, rlo, compl(hi));
        lemma_clip_point_value(cx1, 0 - dx, rhi, compl(lo));
        lemma_clip_point_value(cy1, 0 - dy, rhi, compl(lo));
        lemma_clip_point_reverse(cx0, dx, hi);
        lemma_clip_point_reverse(cy0, dy, hi);
        lemma_clip_point_reverse(cx0, dx, lo);
        lemma_clip_point_reverse(cy0, dy, lo);
    }
}

/// The smaller of complements has the value of the complement of the
/// larger, even through a value-equal stand-in.
proof fn lemma_fmin_compl(aa: (int, int), a: (int, int), b: (int, int))
    requires
        a.1 >= 1,
        aa.1 >= 1,
        b.1 >= 1,
        frac_eq(aa, compl(a)),
    ensures
        frac_eq(fmin(aa, compl(b)), compl(fmax(a, b))),
        fmin(aa, compl(b)).1 >= 1,
{
    lemma_compl_le(a, b);
    lemma_compl_le(b, a);
    lemma_frac_le_congruence(aa, compl(a), compl(b));
    if frac_le(aa.0, aa.1, b.1 - b.0, b.1) {
        // fmin keeps aa; the originals satisfy b ≤ a, so fmax is a unless
        // the two are value-equal.
        if frac_le(a.0, a.1, b.0, b.1) {
            assert(frac_le(b.0, b.1, a.0, a.1));
            assert((b.1 - b.0) * a.1 == (a.1 - a.0) * b.1) by (nonlinear_arith)
                requires
                    a.0 * b.1 <= b.0 * a.1 && b.0 * a.1 <= a.0 * b.1,
            ;
            assert(frac_eq(aa, compl(b))) by {
                assert(aa.0 * (compl(b).1) == compl(b).0 * aa.1) by (nonlinear_arith)
                    requires
                        aa.0 * a.1 == (a.1 - a.0) * aa.1 && (b.1 - b.0) * a.1 == (a.1 - a.0) * b.1
                            && a.1 >= 1 && b.1 >= 1 && aa.1 >= 1,
                ;
            }
        } else {
            assert(frac_eq(aa, compl(a)));
        }
    }
}

} // verus!
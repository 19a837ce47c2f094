//! The framebuffer view and its drawing operations.
//!
//! A `Renderer` addresses a rectangular `width` × `height` region of a pixel
//! store, whose rows are `stride` pixels apart and whose origin sits `start`
//! pixels into the store. Writes either replace the destination pixel or
//! source-over blend onto it, selected by a sticky blend mode.

use vstd::prelude::*;

use crate::color::{spec_blend, blend_color};
use crate::clip::{box_clip, spec_box_clip};
use crate::ray::{Ray, on_line, line_k, line_total, bres_point, row_x, lemma_on_line_endpoint,
    lemma_on_line_at, lemma_bres_point_zero};
use crate::color::{spec_aa_color, aa_color};
use crate::bary::{bary_nonneg, mix_at, circle_sample_count, tri_sample_count};
use crate::circle::{absi, circle_y, circle_d, circle_active, circle_partial, circle_op_covers,
    lemma_circle_props, lemma_circle_y_step, lemma_partial_step, lemma_partial_step_disjoint,
    lemma_cover_to_partial, lemma_partial_to_cover, lemma_partial_rows};

verus! {

pub struct Renderer {
    pub buffer: Vec<u32>,
    pub width: u32,
    pub height: u32,
    pub stride: u32,
    pub start: usize,
    pub blending: bool,
}

impl Renderer {
    /// The pixel store that backs this view.
    pub open spec fn buf(self) -> Seq<u32> {
        self.buffer@
    }

    /// Offset of the view's origin inside the pixel store.
    pub open spec fn origin(self) -> int {
        self.start as int
    }

    /// Whether writes currently source-over blend instead of replacing.
    pub open spec fn is_blending(self) -> bool {
        self.blending
    }

    /// Index of view pixel (x, y) in the backing store.
    pub open spec fn idx(self, x: int, y: int) -> int {
        self.origin() + y * self.stride + x
    }

    /// The view pixel at (x, y).
    pub open spec fn pix(self, x: int, y: int) -> u32 {
        self.buf()[self.idx(x, y)]
    }

    /// Whether (x, y) lies inside the view.
    pub open spec fn in_view(self, x: int, y: int) -> bool {
        0 <= x < self.width && 0 <= y < self.height
    }

    /// Whether store index `i` addresses some pixel of the view.
    pub open spec fn is_view_idx(self, i: int) -> bool {
        &&& self.width > 0
        &&& self.origin() <= i < self.origin() + (self.height - 1) * self.stride + self.width
        &&& (i - self.origin()) % (self.stride as int) < self.width
    }

    /// The view is well formed: every view pixel addresses a store element,
    /// and the dimensions stay within the signed 32-bit coordinate range.
    pub open spec fn wf(self) -> bool {
        &&& self.width <= self.stride
        &&& self.width <= 0x7fff_ffff
        &&& self.height <= 0x7fff_ffff
        &&& self.height > 0 ==> self.origin() + (self.height - 1) * self.stride + self.width
            <= self.buf().len()
    }

    /// Two views address pixels identically (same geometry over stores of
    /// equal size).
    pub open spec fn shape_eq(self, other: Renderer) -> bool {
        &&& self.width == other.width
        &&& self.height == other.height
        &&& self.stride == other.stride
        &&& self.origin() == other.origin()
        &&& self.buf().len() == other.buf().len()
    }

    /// What a write stores at a destination pixel under the current mode.
    pub open spec fn write_pix(self, dst: u32, src: u32) -> u32 {
        if self.is_blending() {
            spec_blend(dst, src)
        } else {
            src
        }
    }

    /// A view pixel index stays inside the store and is recoverable to its
    /// coordinates.
    pub proof fn lemma_idx_view(self, x: int, y: int)
        requires
            self.wf(),
            self.in_view(x, y),
        ensures
            0 <= self.idx(x, y) < self.buf().len(),
            self.is_view_idx(self.idx(x, y)),
            (self.idx(x, y) - self.origin()) % (self.stride as int) == x,
            (self.idx(x, y) - self.origin()) / (self.stride as int) == y,
    {
        let s = self.stride as int;
        assert(y * s + x <= (self.height - 1) * s + x && 0 <= y * s) by (nonlinear_arith)
            requires
                0 <= y <= self.height - 1 && s >= 0 && 0 <= x,
        ;
        assert((y * s + x) % s == x && (y * s + x) / s == y) by (nonlinear_arith)
            requires
                0 <= x < s && 0 <= y,
        ;
    }

    /// Distinct view coordinates address distinct store elements.
    pub proof fn lemma_idx_injective(self, x0: int, y0: int, x1: int, y1: int)
        requires
            self.wf(),
            self.in_view(x0, y0),
            self.in_view(x1, y1),
            self.idx(x0, y0) == self.idx(x1, y1),
        ensures
            x0 == x1 && y0 == y1,
    {
        self.lemma_idx_view(x0, y0);
        self.lemma_idx_view(x1, y1);
    }
}

/// `next` is `prev` with exactly the covered view pixels written with
/// `color` under `prev`'s write mode, and everything else untouched.
pub open spec fn paints(
    prev: Renderer,
    next: Renderer,
    cov: spec_fn(int, int) -> bool,
    color: u32,
) -> bool {
    &&& next.shape_eq(prev)
    &&& next.is_blending() == prev.is_blending()
    &&& forall|x: int, y: int|
        prev.in_view(x, y) ==> #[trigger] next.pix(x, y) == (if cov(x, y) {
            prev.write_pix(prev.pix(x, y), color)
        } else {
            prev.pix(x, y)
        })
    &&& forall|i: int|
        0 <= i < prev.buf().len() && !prev.is_view_idx(i) ==> #[trigger] next.buf()[i]
            == prev.buf()[i]
}

/// Painting one region and then a disjoint region paints their union.
pub proof fn lemma_paints_compose(
    a: Renderer,
    b: Renderer,
    c: Renderer,
    cov1: spec_fn(int, int) -> bool,
    cov2: spec_fn(int, int) -> bool,
    cov: spec_fn(int, int) -> bool,
    color: u32,
)
    requires
        a.wf(),
        paints(a, b, cov1, color),
        paints(b, c, cov2, color),
        forall|x: int, y: int| a.in_view(x, y) ==> !(#[trigger] cov1(x, y) && #[trigger] cov2(x, y)),
        forall|x: int, y: int|
            a.in_view(x, y) ==> (#[trigger] cov(x, y) <==> cov1(x, y) || cov2(x, y)),
    ensures
        paints(a, c, cov, color),
{
    assert forall|x: int, y: int| a.in_view(x, y) implies #[trigger] c.pix(x, y) == (if cov(x, y) {
        a.write_pix(a.pix(x, y), color)
    } else {
        a.pix(x, y)
    }) by {
        assert(b.pix(x, y) == (if cov1(x, y) {
            a.write_pix(a.pix(x, y), color)
        } else {
            a.pix(x, y)
        }));
    }
}

impl Renderer {
    /// Creates an owning view over the whole of `buffer`, `width` pixels by
    /// `height` pixels, with blending off.
    pub fn new(buffer: Vec<u32>, width: u32, height: u32) -> (r: Renderer)
        requires
            width * height == buffer@.len(),
            width <= 0x7fff_ffff,
            height <= 0x7fff_ffff,
        ensures
            r.wf(),
            r.width == width,
            r.height == height,
            r.stride == width,
            r.origin() == 0,
            !r.is_blending(),
            r.buf() == buffer@,
    {
        proof {
            assert((height - 1) * width + width == height * width) by (nonlinear_arith);
            assert(width * height == height * width) by (nonlinear_arith);
        }
        Renderer { buffer, width, height, stride: width, start: 0, blending: false }
    }

    /// Creates a view of the `width` × `height` region at (x, y) inside a
    /// backing store of `buffer_width` × `buffer_height` pixels. The region
    /// must fit inside the backing store.
    pub fn sub_canvas(
        buffer: Vec<u32>,
        x: u32,
        y: u32,
        width: u32,
        height: u32,
        buffer_width: u32,
        buffer_height: u32,
    ) -> (r: Renderer)
        requires
            x < buffer_width,
            x + width <= buffer_width,
            y < buffer_height,
            y + height <= buffer_height,
            buffer_width * buffer_height == buffer@.len(),
            buffer_width <= 0x7fff_ffff,
            buffer_height <= 0x7fff_ffff,
        ensures
            r.wf(),
            r.width == width,
            r.height == height,
            r.stride == buffer_width,
            r.origin() == y * buffer_width + x,
            !r.is_blending(),
            r.buf() == buffer@,
    {
        let stride = buffer_width;
        let n = buffer.len();
        proof {
            let bw = buffer_width as int;
            let bh = buffer_height as int;
            assert(y * bw + x + (height - 1) * bw + width <= bh * bw && y * bw + x < bh * bw
                && bw * bh == bh * bw) by (nonlinear_arith)
                requires
                    x < bw && x + width <= bw && y < bh && y + height <= bh && 0 <= x && 0 <= y
                        && 0 <= width && 0 <= height,
            ;
        }
        let start_index = (y as usize) * (stride as usize) + (x as usize);
        Renderer { buffer, width, height, stride, start: start_index, blending: false }
    }

    /// The backing pixel store.
    pub fn get_buffer(&self) -> (r: &Vec<u32>)
        ensures
            r@ == self.buf(),
    {
        &self.buffer
    }

    /// The backing pixel store, mutably. Writes through it bypass the
    /// view's mode and clipping.
    pub fn get_buffer_mut(&mut self) -> (r: &mut Vec<u32>)
        ensures
            *r == old(self).buffer,
            final(self).buffer == *final(r),
            final(self).width == old(self).width,
            final(self).height == old(self).height,
            final(self).stride == old(self).stride,
            final(self).origin() == old(self).origin(),
            final(self).is_blending() == old(self).is_blending(),
    {
        &mut self.buffer
    }

    /// The backing pixel store, consumed. Lets a caller rebuild a view (for
    /// example a sub-canvas) over the same pixels.
    pub fn into_buffer(self) -> (r: Vec<u32>)
        ensures
            r@ == self.buf(),
    {
        self.buffer
    }

    /// The contiguous `width`-long pixel span of row `y`.
    pub fn get_row_unchecked(&self, y: u32) -> (r: &[u32])
        requires
            self.wf(),
            y < self.height,
        ensures
            r@.len() == self.width,
            forall|x: int| 0 <= x < self.width ==> r@[x] == self.pix(x, y as int),
    {
        let n = self.buffer.len();
        proof {
            let s = self.stride as int;
            assert(y * s <= (self.height - 1) * s) by (nonlinear_arith)
                requires
                    y <= self.height - 1 && s >= 0,
            ;
        }
        let row_start = self.start + (y as usize) * (self.stride as usize);
        let row_end = row_start + (self.width as usize);
        vstd::slice::slice_subrange(self.buffer.as_slice(), row_start, row_end)
    }

    /// Subsequent writes source-over blend onto the destination.
    pub fn begin_blending(&mut self)
        ensures
            *final(self) == (Renderer { blending: true, ..*old(self) }),
            final(self).is_blending(),
            final(self).buf() == old(self).buf(),
            final(self).shape_eq(*old(self)),
            old(self).wf() ==> final(self).wf(),
    {
        self.blending = true;
    }

    /// Subsequent writes replace the destination.
    pub fn end_blending(&mut self)
        ensures
            *final(self) == (Renderer { blending: false, ..*old(self) }),
            !final(self).is_blending(),
            final(self).buf() == old(self).buf(),
            final(self).shape_eq(*old(self)),
            old(self).wf() ==> final(self).wf(),
    {
        self.blending = false;
    }

    /// Writes one view pixel, without bounds checks, under the current mode.
    fn draw_pixel_unchecked(&mut self, x: u32, y: u32, color: u32)
        requires
            old(self).wf(),
            x < old(self).width,
            y < old(self).height,
        ensures
            final(self).wf(),
            final(self).shape_eq(*old(self)),
            final(self).is_blending() == old(self).is_blending(),
            final(self).buf() == old(self).buf().update(
                old(self).idx(x as int, y as int),
                old(self).write_pix(old(self).pix(x as int, y as int), color),
            ),
    {
        let n = self.buffer.len();
        proof {
            self.lemma_idx_view(x as int, y as int);
        }
        let i = self.start + (y as usize) * (self.stride as usize) + (x as usize);
        if self.blending {
            let mut p = self.buffer[i];
            blend_color(&mut p, color);
            self.buffer[i] = p;
        } else {
            self.buffer[i] = color;
        }
    }

    /// Writes one view pixel if (x, y) is inside the view; pixels outside
    /// are silently clipped.
    fn draw_pixel(&mut self, x: i32, y: i32, color: u32)
        requires
            old(self).wf(),
        ensures
            final(self).wf(),
            paints(
                *old(self),
                *final(self),
                (|px: int, py: int| px == x && py == y),
                color,
            ),
    {
        if 0 <= x && 0 <= y && (x as u32) < self.width && (y as u32) < self.height {
            self.draw_pixel_unchecked(x as u32, y as u32, color);
            proof {
                old(self).lemma_update_paints(*self, x as int, y as int, color);
            }
        } else {
            proof {
                self.lemma_paint_pixel_setup(x as int, y as int, color);
            }
        }
    }

    /// An unchanged view paints the empty region; a one-pixel update paints
    /// that pixel.
    proof fn lemma_paint_pixel_setup(self, x: int, y: int, color: u32)
        requires
            self.wf(),
            !self.in_view(x, y),
        ensures
            paints(self, self, (|px: int, py: int| px == x && py == y), color),
    {
    }

    /// A single store update at a view coordinate paints exactly that pixel.
    proof fn lemma_update_paints(self, next: Renderer, x: int, y: int, color: u32)
        requires
            self.wf(),
            self.in_view(x, y),
            next.width == self.width,
            next.height == self.height,
            next.stride == self.stride,
            next.origin() == self.origin(),
            next.is_blending() == self.is_blending(),
            next.buf() == self.buf().update(self.idx(x, y), self.write_pix(self.pix(x, y), color)),
        ensures
            paints(self, next, (|px: int, py: int| px == x && py == y), color),
    {
        self.lemma_idx_view(x, y);
        assert forall|px: int, py: int| self.in_view(px, py) implies #[trigger] next.pix(px, py)
            == (if px == x && py == y {
            self.write_pix(self.pix(px, py), color)
        } else {
            self.pix(px, py)
        }) by {
            self.lemma_idx_view(px, py);
            if px == x && py == y {
            } else {
                assert(self.idx(px, py) != self.idx(x, y)) by {
                    if self.idx(px, py) == self.idx(x, y) {
                        self.lemma_idx_injective(px, py, x, y);
                    }
                }
            }
        }
    }
}

/// `v` clamped into `[lo, hi]`.
pub open spec fn clampi(v: int, lo: int, hi: int) -> int {
    if v < lo {
        lo
    } else if v > hi {
        hi
    } else {
        v
    }
}

/// The smaller of two integers.
pub open spec fn mini(a: int, b: int) -> int {
    if a < b {
        a
    } else {
        b
    }
}

/// The larger of two integers.
pub open spec fn maxi(a: int, b: int) -> int {
    if a < b {
        b
    } else {
        a
    }
}

/// The far corner coordinate of a signed rectangle extent: inclusive width
/// `|w|`, growing rightward for positive `w` and leftward for negative `w`.
pub open spec fn rect_far(x: int, w: int) -> int {
    if w > 0 {
        x + w - 1
    } else {
        x + w + 1
    }
}

/// Whether view pixel (px, py) belongs to the signed rectangle at (x, y)
/// with extents (w, h), after both corners are clamped into the
/// `bw` × `bh` view.
pub open spec fn rect_covers(
    x: int,
    y: int,
    w: int,
    h: int,
    bw: int,
    bh: int,
    px: int,
    py: int,
) -> bool {
    &&& w != 0 && h != 0 && bw > 0 && bh > 0
    &&& clampi(mini(x, rect_far(x, w)), 0, bw - 1) <= px <= clampi(
        maxi(x, rect_far(x, w)),
        0,
        bw - 1,
    )
    &&& clampi(mini(y, rect_far(y, h)), 0, bh - 1) <= py <= clampi(
        maxi(y, rect_far(y, h)),
        0,
        bh - 1,
    )
}

/// Normalizes a signed rectangle into inclusive clamped corners
/// ((x0, y0), (x1, y1)) inside the `bound_width` × `bound_height` view, or
/// `None` for an empty extent or an empty view.
fn normalize_rect(x: i64, y: i64, w: i64, h: i64, bound_width: u32, bound_height: u32) -> (r:
    Option<((u32, u32), (u32, u32))>)
    requires
        bound_width <= 0x7fff_ffff,
        bound_height <= 0x7fff_ffff,
        -0x4_0000_0000 <= x <= 0x4_0000_0000,
        -0x4_0000_0000 <= y <= 0x4_0000_0000,
        -0x4_0000_0000 <= w <= 0x4_0000_0000,
        -0x4_0000_0000 <= h <= 0x4_0000_0000,
    ensures
        r is None <==> (w == 0 || h == 0 || bound_width == 0 || bound_height == 0),
        r matches Some(((x0, y0), (x1, y1))) ==> {
            &&& x0 == clampi(mini(x as int, rect_far(x as int, w as int)), 0, bound_width - 1)
            &&& x1 == clampi(maxi(x as int, rect_far(x as int, w as int)), 0, bound_width - 1)
            &&& y0 == clampi(mini(y as int, rect_far(y as int, h as int)), 0, bound_height - 1)
            &&& y1 == clampi(maxi(y as int, rect_far(y as int, h as int)), 0, bound_height - 1)
            &&& x0 <= x1 < bound_width
            &&& y0 <= y1 < bound_height
        },
{
    if w == 0 || h == 0 || bound_width == 0 || bound_height == 0 {
        return None;
    }
    let xs = x;
    let ys = y;
    let xf = if w > 0 {
        xs + w - 1
    } else {
        xs + w + 1
    };
    let yf = if h > 0 {
        ys + h - 1
    } else {
        ys + h + 1
    };
    let mut x0 = clamp_i64(xs, 0, (bound_width as i64) - 1);
    let mut y0 = clamp_i64(ys, 0, (bound_height as i64) - 1);
    let mut x1 = clamp_i64(xf, 0, (bound_width as i64) - 1);
    let mut y1 = clamp_i64(yf, 0, (bound_height as i64) - 1);
    if x1 < x0 {
        let t = x0;
        x0 = x1;
        x1 = t;
    }
    if y1 < y0 {
        let t = y0;
        y0 = y1;
        y1 = t;
    }
    Some(((x0 as u32, y0 as u32), (x1 as u32, y1 as u32)))
}

/// `v` clamped into `[lo, hi]`.
fn clamp_i64(v: i64, lo: i64, hi: i64) -> (r: i64)
    requires
        lo <= hi,
    ensures
        r == clampi(v as int, lo as int, hi as int),
{
    if v < lo {
        lo
    } else if v > hi {
        hi
    } else {
        v
    }
}

/// Painting with one region is painting with any pointwise equal region.
pub proof fn lemma_paints_weaken(
    a: Renderer,
    b: Renderer,
    cov1: spec_fn(int, int) -> bool,
    cov2: spec_fn(int, int) -> bool,
    color: u32,
)
    requires
        paints(a, b, cov1, color),
        forall|x: int, y: int|
            a.in_view(x, y) ==> (#[trigger] cov1(x, y) <==> #[trigger] cov2(x, y)),
    ensures
        paints(a, b, cov2, color),
{
    assert forall|x: int, y: int| a.in_view(x, y) implies #[trigger] b.pix(x, y) == (if cov2(x, y) {
        a.write_pix(a.pix(x, y), color)
    } else {
        a.pix(x, y)
    }) by {
        assert(b.pix(x, y) == (if cov1(x, y) {
            a.write_pix(a.pix(x, y), color)
        } else {
            a.pix(x, y)
        }));
    }
}

impl Renderer {
    /// A view index addresses exactly one view pixel.
    pub proof fn lemma_view_idx_coords(self, i: int)
        requires
            self.wf(),
            self.is_view_idx(i),
        ensures
            self.in_view((i - self.origin()) % (self.stride as int), (i - self.origin()) / (
            self.stride as int)),
            self.idx(
                (i - self.origin()) % (self.stride as int),
                (i - self.origin()) / (self.stride as int),
            ) == i,
    {
        let s = self.stride as int;
        let o = i - self.origin();
        vstd::arithmetic::div_mod::lemma_fundamental_div_mod(o, s);
        vstd::arithmetic::div_mod::lemma_mod_bound(o, s);
        vstd::arithmetic::div_mod::lemma_div_pos_is_pos(o, s);
        assert(o < (self.height - 1) * s + self.width);
        let q = o / s;
        let r = o % s;
        assert(o == s * q + r);
        assert(q < self.height) by {
            if q >= self.height {
                assert(s * q >= s * (self.height as int)) by (nonlinear_arith)
                    requires
                        q >= self.height && s >= 0,
                ;
                assert(s * (self.height as int) == (self.height - 1) * s + s) by (nonlinear_arith);
            }
        }
        assert(s * q == q * s) by (nonlinear_arith);
    }

    /// Painting nowhere leaves the pixel store as it was.
    pub proof fn lemma_paints_nothing(self, next: Renderer, cov: spec_fn(int, int) -> bool, color: u32)
        requires
            self.wf(),
            paints(self, next, cov, color),
            forall|x: int, y: int| self.in_view(x, y) ==> !#[trigger] cov(x, y),
        ensures
            next.buf() == self.buf(),
    {
        assert forall|i: int| 0 <= i < self.buf().len() implies next.buf()[i] == self.buf()[i] by {
            if self.is_view_idx(i) {
                self.lemma_view_idx_coords(i);
                let s = self.stride as int;
                let x = (i - self.origin()) % s;
                let y = (i - self.origin()) / s;
                assert(next.pix(x, y) == self.pix(x, y));
            }
        }
        assert(next.buf() =~= self.buf());
    }

    /// Fills the inclusive pixel run (x0..=x1, y) under the current mode,
    /// without bounds checks.
    pub fn draw_horizontal_line_unchecked(&mut self, x0: u32, x1: u32, y: u32, color: u32)
        requires
            old(self).wf(),
            x0 <= x1,
            x1 < old(self).width,
            y < old(self).height,
        ensures
            final(self).wf(),
            paints(
                *old(self),
                *final(self),
                (|px: int, py: int| py == y && x0 <= px <= x1),
                color,
            ),
    {
        let ghost orig = *self;
        let mut xx = x0;
        while xx <= x1
            invariant
                orig.wf(),
                self.wf(),
                x0 <= xx <= x1 + 1,
                x1 < orig.width,
                y < orig.height,
                self.width == orig.width,
                self.height == orig.height,
                paints(orig, *self, (|px: int, py: int| py == y && x0 <= px < xx), color),
            decreases x1 + 1 - xx,
        {
            let ghost prev = *self;
            self.draw_pixel_unchecked(xx, y, color);
            proof {
                prev.lemma_update_paints(*self, xx as int, y as int, color);
                lemma_paints_compose(
                    orig,
                    prev,
                    *self,
                    (|px: int, py: int| py == y && x0 <= px < xx),
                    (|px: int, py: int| px == xx && py == y),
                    (|px: int, py: int| py == y && x0 <= px < xx + 1),
                    color,
                );
            }
            xx = xx + 1;
        }
        proof {
            lemma_paints_weaken(
                orig,
                *self,
                (|px: int, py: int| py == y && x0 <= px < xx),
                (|px: int, py: int| py == y && x0 <= px <= x1),
                color,
            );
        }
    }

    /// Fills the pixel run between x0 and x1 (in either order) on row `y`,
    /// clipped to the view.
    fn draw_horizontal_line(&mut self, x0: i64, x1: i64, y: i64, color: u32)
        requires
            old(self).wf(),
        ensures
            final(self).wf(),
            paints(
                *old(self),
                *final(self),
                (|px: int, py: int| py == y as int && mini(x0 as int, x1 as int) <= px <= maxi(
                    x0 as int,
                    x1 as int,
                )),
                color,
            ),
    {
        let ghost orig = *self;
        let ghost cov = (|px: int, py: int| py == y as int && mini(x0 as int, x1 as int) <= px
            <= maxi(x0 as int, x1 as int));
        let (lo, hi) = if x1 < x0 {
            (x1, x0)
        } else {
            (x0, x1)
        };
        if hi < 0 || y < 0 || self.width == 0 || lo >= (self.width as i64) || y >= (
        self.height as i64) {
            proof {
                assert(paints(orig, *self, cov, color));
            }
            return ;
        }
        let cx0: u32 = if lo < 0 {
            0
        } else {
            lo as u32
        };
        let w = self.width;
        let cx1: u32 = if hi >= (w as i64) {
            w - 1
        } else {
            hi as u32
        };
        self.draw_horizontal_line_unchecked(cx0, cx1, y as u32, color);
        proof {
            lemma_paints_weaken(
                orig,
                *self,
                (|px: int, py: int| py == y as u32 && cx0 <= px <= cx1),
                cov,
                color,
            );
        }
    }

    /// Fills the signed rectangle at (x0, y0) with extents (w, h), clamped
    /// to the view, under the current mode. A zero extent is a no-op; a
    /// negative extent grows leftward or upward.
    pub fn fill_rect(&mut self, x0: i32, y0: i32, w: i32, h: i32, color: u32)
        requires
            old(self).wf(),
        ensures
            final(self).wf(),
            paints(
                *old(self),
                *final(self),
                (|px: int, py: int| rect_covers(
                    x0 as int,
                    y0 as int,
                    w as int,
                    h as int,
                    old(self).width as int,
                    old(self).height as int,
                    px,
                    py,
                )),
                color,
            ),
    {
        let ghost orig = *self;
        let ghost cov = (|px: int, py: int| rect_covers(
            x0 as int,
            y0 as int,
            w as int,
            h as int,
            orig.width as int,
            orig.height as int,
            px,
            py,
        ));
        if let Some(((rx0, ry0), (rx1, ry1))) = normalize_rect(
            x0 as i64,
            y0 as i64,
            w as i64,
            h as i64,
            self.width,
            self.height,
        ) {
            let mut yy = ry0;
            while yy <= ry1
                invariant
                    orig.wf(),
                    self.wf(),
                    ry0 <= yy <= ry1 + 1,
                    rx0 <= rx1 < orig.width,
                    ry1 < orig.height,
                    self.width == orig.width,
                    self.height == orig.height,
                    paints(
                        orig,
                        *self,
                        (|px: int, py: int| rx0 <= px <= rx1 && ry0 <= py < yy),
                        color,
                    ),
                decreases ry1 + 1 - yy,
            {
                let ghost prev = *self;
                self.draw_horizontal_line_unchecked(rx0, rx1, yy, color);
                proof {
                    lemma_paints_compose(
                        orig,
                        prev,
                        *self,
                        (|px: int, py: int| rx0 <= px <= rx1 && ry0 <= py < yy),
                        (|px: int, py: int| py == yy && rx0 <= px <= rx1),
                        (|px: int, py: int| rx0 <= px <= rx1 && ry0 <= py < yy + 1),
                        color,
                    );
                }
                yy = yy + 1;
            }
            proof {
                lemma_paints_weaken(
                    orig,
                    *self,
                    (|px: int, py: int| rx0 <= px <= rx1 && ry0 <= py < yy),
                    cov,
                    color,
                );
            }
        } else {
            proof {
                assert(paints(orig, *self, cov, color));
            }
        }
    }

    /// Fills the whole view with `color` under the current mode.
    pub fn fill(&mut self, color: u32)
        requires
            old(self).wf(),
        ensures
            final(self).wf(),
            paints(*old(self), *final(self), (|px: int, py: int| true), color),
    {
        let ghost orig = *self;
        let w = self.width;
        let h = self.height;
        self.fill_rect(0, 0, w as i32, h as i32, color);
        proof {
            lemma_paints_weaken(
                orig,
                *self,
                (|px: int, py: int| rect_covers(
                    0,
                    0,
                    w as int,
                    h as int,
                    orig.width as int,
                    orig.height as int,
                    px,
                    py,
                )),
                (|px: int, py: int| true),
                color,
            );
        }
    }
}

/// With blending off, filling the whole view makes every view pixel equal
/// to the fill color.
pub proof fn lemma_opaque_fill_pins(prev: Renderer, next: Renderer, color: u32)
    requires
        prev.wf(),
        !prev.is_blending(),
        paints(prev, next, (|px: int, py: int| true), color),
    ensures
        forall|x: int, y: int| prev.in_view(x, y) ==> #[trigger] next.pix(x, y) == color,
{
}

/// A rectangle with a negative extent on both axes covers the same pixels
/// as the normalized positive-span rectangle.
pub proof fn lemma_rect_negative_extent_normalizes(
    x: int,
    y: int,
    w: int,
    h: int,
    bw: int,
    bh: int,
)
    requires
        w < 0,
        h < 0,
    ensures
        forall|px: int, py: int| #[trigger]
            rect_covers(x, y, w, h, bw, bh, px, py) <==> rect_covers(
                x + w + 1,
                y + h + 1,
                0 - w,
                0 - h,
                bw,
                bh,
                px,
                py,
            ),
{
}

/// A rectangle with a zero extent on either axis paints nothing.
pub proof fn lemma_fill_rect_empty_is_noop(
    prev: Renderer,
    next: Renderer,
    cov: spec_fn(int, int) -> bool,
    x: int,
    y: int,
    w: int,
    h: int,
    color: u32,
)
    requires
        prev.wf(),
        w == 0 || h == 0,
        forall|px: int, py: int| #[trigger]
            cov(px, py) == rect_covers(x, y, w, h, prev.width as int, prev.height as int, px, py),
        paints(prev, next, cov, color),
    ensures
        next.buf() == prev.buf(),
{
    prev.lemma_paints_nothing(next, cov, color);
}

/// Whether view pixel (px, py) is written by drawing the line from
/// (x0, y0) to (x1, y1) on a `w` × `h` view: the pixels of the Bresenham
/// traversal of the clipped segment, or nothing if the segment misses the
/// clip box.
pub open spec fn line_covers(
    x0: int,
    y0: int,
    x1: int,
    y1: int,
    w: int,
    h: int,
    px: int,
    py: int,
) -> bool {
    match spec_box_clip(x0, y0, x1, y1, w, h) {
        Some(c) => on_line(c.0, c.1, c.2, c.3, px, py),
        None => false,
    }
}

impl Renderer {
    /// Draws the line from (x0, y0) to (x1, y1), clipped to the view,
    /// under the current mode.
    pub fn draw_line(&mut self, x0: i32, y0: i32, x1: i32, y1: i32, color: u32)
        requires
            old(self).wf(),
        ensures
            final(self).wf(),
            paints(
                *old(self),
                *final(self),
                (|px: int, py: int| line_covers(
                    x0 as int,
                    y0 as int,
                    x1 as int,
                    y1 as int,
                    old(self).width as int,
                    old(self).height as int,
                    px,
                    py,
                )),
                color,
            ),
    {
        let ghost orig = *self;
        let ghost cov = (|px: int, py: int| line_covers(
            x0 as int,
            y0 as int,
            x1 as int,
            y1 as int,
            orig.width as int,
            orig.height as int,
            px,
            py,
        ));
        let clipped = box_clip(x0, y0, x1, y1, self.width, self.height);
        if let Some((cx0, cy0, cx1, cy1)) = clipped {
            let ghost a = cx0 as int;
            let ghost b = cy0 as int;
            let ghost c = cx1 as int;
            let ghost d = cy1 as int;
            let ghost total = line_total(a, b, c, d);
            let ghost prev0 = *self;
            self.draw_pixel_unchecked(cx1 as u32, cy1 as u32, color);
            proof {
                prev0.lemma_update_paints(*self, c, d, color);
                lemma_on_line_endpoint(a, b, c, d);
                lemma_paints_weaken(
                    orig,
                    *self,
                    (|px: int, py: int| px == c && py == d),
                    (|px: int, py: int| on_line(a, b, c, d, px, py) && (line_k(a, b, c, d, px, py)
                        < 0 || line_k(a, b, c, d, px, py) == total)),
                    color,
                );
            }
            let mut ray = Ray::new(cx0, cy0, cx1, cy1);
            while !ray.reached
                invariant
                    orig.wf(),
                    self.wf(),
                    self.width == orig.width,
                    self.height == orig.height,
                    ray.wf(),
                    ray.x0 == cx0 && ray.y0 == cy0 && ray.x1 == cx1 && ray.y1 == cy1,
                    ray.taken() <= ray.total(),
                    a == cx0 as int && b == cy0 as int && c == cx1 as int && d == cy1 as int,
                    total == ray.total() && total == line_total(a, b, c, d),
                    0 <= cx0 < orig.width && 0 <= cy0 < orig.height,
                    0 <= cx1 < orig.width && 0 <= cy1 < orig.height,
                    paints(
                        orig,
                        *self,
                        (|px: int, py: int| on_line(a, b, c, d, px, py) && (line_k(
                            a,
                            b,
                            c,
                            d,
                            px,
                            py,
                        ) < ray.taken() || line_k(a, b, c, d, px, py) == total)),
                        color,
                    ),
                decreases ray.total() - ray.taken(),
            {
                let ghost pre_ray = ray;
                let ghost prev = *self;
                let (ex, ey) = ray.next_xy();
                proof {
                    pre_ray.lemma_position();
                    lemma_on_line_at(a, b, c, d, pre_ray.taken());
                }
                self.draw_pixel_unchecked(ex as u32, ey as u32, color);
                proof {
                    prev.lemma_update_paints(*self, ex as int, ey as int, color);
                    lemma_paints_weaken(
                        prev,
                        *self,
                        (|px: int, py: int| px == ex as int && py == ey as int),
                        (|px: int, py: int| on_line(a, b, c, d, px, py) && line_k(
                            a,
                            b,
                            c,
                            d,
                            px,
                            py,
                        ) == pre_ray.taken()),
                        color,
                    );
                    lemma_paints_compose(
                        orig,
                        prev,
                        *self,
                        (|px: int, py: int| on_line(a, b, c, d, px, py) && (line_k(
                            a,
                            b,
                            c,
                            d,
                            px,
                            py,
                        ) < pre_ray.taken() || line_k(a, b, c, d, px, py) == total)),
                        (|px: int, py: int| on_line(a, b, c, d, px, py) && line_k(
                            a,
                            b,
                            c,
                            d,
                            px,
                            py,
                        ) == pre_ray.taken()),
                        (|px: int, py: int| on_line(a, b, c, d, px, py) && (line_k(
                            a,
                            b,
                            c,
                            d,
                            px,
                            py,
                        ) < pre_ray.taken() + 1 || line_k(a, b, c, d, px, py) == total)),
                        color,
                    );
                }
            }
            proof {
                lemma_paints_weaken(
                    orig,
                    *self,
                    (|px: int, py: int| on_line(a, b, c, d, px, py) && (line_k(a, b, c, d, px, py)
                        < ray.taken() || line_k(a, b, c, d, px, py) == total)),
                    cov,
                    color,
                );
            }
        } else {
            proof {
                assert(paints(orig, *self, cov, color));
            }
        }
    }
}

impl Renderer {
    /// Fills the circle of radius r around (center_x, center_y), clipped to
    /// the view, under the current mode: a radius of zero paints nothing
    /// and a radius of one paints the center pixel alone.
    #[verifier::rlimit(80)]
    pub fn fill_circle(&mut self, center_x: i32, center_y: i32, r: u32, color: u32)
        requires
            old(self).wf(),
        ensures
            final(self).wf(),
            paints(
                *old(self),
                *final(self),
                (|px: int, py: int| circle_op_covers(
                    r as int,
                    center_x as int,
                    center_y as int,
                    px,
                    py,
                )),
                color,
            ),
    {
        let ghost orig = *self;
        let ghost ri = r as int;
        let ghost cxi = center_x as int;
        let ghost cyi = center_y as int;
        let ghost cov = (|px: int, py: int| circle_op_covers(ri, cxi, cyi, px, py));
        if r == 0 {
            proof {
                assert(paints(orig, *self, cov, color));
            }
            return ;
        }
        if r == 1 {
            self.draw_pixel(center_x, center_y, color);
            proof {
                lemma_paints_weaken(
                    orig,
                    *self,
                    (|px: int, py: int| px == center_x as int && py == center_y as int),
                    cov,
                    color,
                );
            }
            return ;
        }
        let cx = center_x as i64;
        let cy = center_y as i64;
        let rr = r as i64;
        if cx + rr < 0 || cy + rr < 0 || cx - rr >= (self.width as i64) || cy - rr >= (
        self.height as i64) {
            proof {
                assert forall|px: int, py: int| orig.in_view(px, py) implies !cov(px, py) by {
                    if cov(px, py) {
                        let n = choose|n: int|
                            0 <= n && #[trigger] circle_active(ri, n) && ((absi(py - cyi) == n
                                && absi(px - cxi) <= circle_y(ri, n)) || (absi(py - cyi)
                                == circle_y(ri, n) && absi(px - cxi) <= n));
                        lemma_circle_props(ri, n);
                    }
                }
                assert(paints(orig, *self, cov, color));
            }
            return ;
        }
        // The row through the center is drawn once, up front.
        let ghost prev0 = *self;
        self.draw_horizontal_line(cx - rr, cx + rr, cy, color);
        proof {
            assert(circle_y(ri, 0) == ri);
            lemma_paints_weaken(
                prev0,
                *self,
                (|px: int, py: int| py == cy as int && mini((cx - rr) as int, (cx + rr) as int)
                    <= px <= maxi((cx - rr) as int, (cx + rr) as int)),
                (|px: int, py: int| circle_partial(ri, cxi, cyi, 1, px, py)),
                color,
            );
        }
        let mut x0: i64 = 0;
        let mut y0: i64 = rr;
        let mut last_y: i64 = y0;
        let mut d: i64 = 3 - 2 * rr;
        if d < 0 {
            d = d + 4 * x0 + 6;
        } else {
            d = d + 4 * (x0 - y0) + 10;
            y0 = y0 - 1;
        }
        x0 = x0 + 1;
        proof {
            assert(circle_y(ri, 0) == ri && circle_d(ri, 0) == 3 - 2 * ri);
            assert(y0 as int == circle_y(ri, 1) && d as int == circle_d(ri, 1));
        }
        while y0 >= x0
            invariant
                orig.wf(),
                self.wf(),
                self.width == orig.width,
                self.height == orig.height,
                r >= 2,
                ri == r as int,
                cxi == center_x as int,
                cyi == center_y as int,
                cx == center_x as i64,
                cy == center_y as i64,
                rr == r as i64,
                1 <= x0 <= rr + 1,
                x0 - 2 <= y0 <= rr,
                y0 as int == circle_y(ri, x0 as int),
                d as int == circle_d(ri, x0 as int),
                last_y as int == circle_y(ri, x0 as int - 1),
                circle_active(ri, x0 as int - 1),
                -4 * ri - 10 <= d as int,
                paints(
                    orig,
                    *self,
                    (|px: int, py: int| circle_partial(ri, cxi, cyi, x0 as int, px, py)),
                    color,
                ),
            decreases y0 + 2 - x0,
        {
            let ghost n = x0 as int;
            let ghost covp = (|px: int, py: int| circle_partial(ri, cxi, cyi, n, px, py));
            proof {
                lemma_circle_props(ri, n);
                lemma_circle_props(ri, n - 1);
                lemma_circle_y_step(ri, n);
                assert(circle_active(ri, n));
            }
            let ghost rowa = (cy + last_y) as int;
            let ghost rowb = (cy - last_y) as int;
            let ghost loa = (cx - (x0 - 1)) as int;
            let ghost hia = (cx + (x0 - 1)) as int;
            let ghost dropped = y0 != last_y;
            let ghost acc2 = (if dropped {
                (|px: int, py: int| covp(px, py) || ((py == rowa || py == rowb) && loa <= px
                    <= hia))
            } else {
                covp
            });
            if y0 != last_y {
                let last_x = x0 - 1;
                let ghost prev1 = *self;
                self.draw_horizontal_line(cx - last_x, cx + last_x, cy + last_y, color);
                proof {
                    assert forall|px: int, py: int| orig.in_view(px, py) implies !(covp(px, py) && (
                    py == rowa && loa <= px <= hia)) by {
                        if covp(px, py) {
                            lemma_partial_step_disjoint(ri, cxi, cyi, n, px, py);
                        }
                    }
                    lemma_paints_compose(
                        orig,
                        prev1,
                        *self,
                        covp,
                        (|px: int, py: int| py == rowa && loa <= px <= hia),
                        (|px: int, py: int| covp(px, py) || (py == rowa && loa <= px <= hia)),
                        color,
                    );
                }
                let ghost prev2 = *self;
                self.draw_horizontal_line(cx - last_x, cx + last_x, cy - last_y, color);
                proof {
                    assert forall|px: int, py: int| orig.in_view(px, py) implies !((covp(px, py)
                        || (py == rowa && loa <= px <= hia)) && (py == rowb && loa <= px <= hia))
                        by {
                        if covp(px, py) {
                            lemma_partial_step_disjoint(ri, cxi, cyi, n, px, py);
                        }
                    }
                    lemma_paints_compose(
                        orig,
                        prev2,
                        *self,
                        (|px: int, py: int| covp(px, py) || (py == rowa && loa <= px <= hia)),
                        (|px: int, py: int| py == rowb && loa <= px <= hia),
                        (|px: int, py: int| covp(px, py) || ((py == rowa || py == rowb) && loa <= px
                            <= hia)),
                        color,
                    );
                    assert(paints(orig, *self, acc2, color));
                }
                last_y = y0;
            }
            let ghost rowc = (cy + x0) as int;
            let ghost rowd = (cy - x0) as int;
            let ghost lob = (cx - y0) as int;
            let ghost hib = (cx + y0) as int;
            let ghost prev3 = *self;
            self.draw_horizontal_line(cx - y0, cx + y0, cy + x0, color);
            proof {
                assert forall|px: int, py: int| orig.in_view(px, py) implies !(acc2(px, py) && (py
                    == rowc && lob <= px <= hib)) by {
                    if covp(px, py) {
                        lemma_partial_step_disjoint(ri, cxi, cyi, n, px, py);
                    }
                }
                lemma_paints_compose(
                    orig,
                    prev3,
                    *self,
                    acc2,
                    (|px: int, py: int| py == rowc && lob <= px <= hib),
                    (|px: int, py: int| acc2(px, py) || (py == rowc && lob <= px <= hib)),
                    color,
                );
            }
            let ghost prev4 = *self;
            self.draw_horizontal_line(cx - y0, cx + y0, cy - x0, color);
            proof {
                assert forall|px: int, py: int| orig.in_view(px, py) implies !((acc2(px, py) || (py
                    == rowc && lob <= px <= hib)) && (py == rowd && lob <= px <= hib)) by {
                    if covp(px, py) {
                        lemma_partial_step_disjoint(ri, cxi, cyi, n, px, py);
                    }
                }
                lemma_paints_compose(
                    orig,
                    prev4,
                    *self,
                    (|px: int, py: int| acc2(px, py) || (py == rowc && lob <= px <= hib)),
                    (|px: int, py: int| py == rowd && lob <= px <= hib),
                    (|px: int, py: int| acc2(px, py) || ((py == rowc || py == rowd) && lob <= px
                        <= hib)),
                    color,
                );
                assert forall|px: int, py: int| orig.in_view(px, py) implies ((acc2(px, py) || ((py
                    == rowc || py == rowd) && lob <= px <= hib)) <==> circle_partial(
                    ri,
                    cxi,
                    cyi,
                    n + 1,
                    px,
                    py,
                )) by {
                    lemma_partial_step(ri, cxi, cyi, n, px, py);
                }
                lemma_paints_weaken(
                    orig,
                    *self,
                    (|px: int, py: int| acc2(px, py) || ((py == rowc || py == rowd) && lob <= px
                        <= hib)),
                    (|px: int, py: int| circle_partial(ri, cxi, cyi, n + 1, px, py)),
                    color,
                );
            }
            if d < 0 {
                d = d + 4 * x0 + 6;
            } else {
                d = d + 4 * (x0 - y0) + 10;
                y0 = y0 - 1;
            }
            x0 = x0 + 1;
        }
        let ghost nend = x0 as int;
        let ghost covn = (|px: int, py: int| circle_partial(ri, cxi, cyi, nend, px, py));
        let last_x = x0 - 1;
        if last_x == last_y {
            proof {
                assert forall|px: int, py: int| orig.in_view(px, py) implies (covn(px, py) <==> cov(
                    px,
                    py,
                )) by {
                    lemma_partial_to_cover(ri, cxi, cyi, nend, px, py);
                    if cov(px, py) {
                        lemma_cover_to_partial(ri, cxi, cyi, nend, px, py);
                        if absi(py - cyi) == circle_y(ri, nend - 1) && absi(px - cxi) <= nend - 1 {
                            assert(circle_partial(ri, cxi, cyi, nend, px, py));
                        }
                    }
                }
                lemma_paints_weaken(orig, *self, covn, cov, color);
            }
            return ;
        }
        let ghost rowe = (cy + last_y) as int;
        let ghost rowf = (cy - last_y) as int;
        let ghost loe = (cx - last_x) as int;
        let ghost hie = (cx + last_x) as int;
        let ghost prev5 = *self;
        self.draw_horizontal_line(cx - last_x, cx + last_x, cy + last_y, color);
        proof {
            assert forall|px: int, py: int| orig.in_view(px, py) implies !(covn(px, py) && (py
                == rowe && loe <= px <= hie)) by {
                if covn(px, py) {
                    lemma_partial_rows(ri, cxi, cyi, nend, px, py);
                }
            }
            lemma_paints_compose(
                orig,
                prev5,
                *self,
                covn,
                (|px: int, py: int| py == rowe && loe <= px <= hie),
                (|px: int, py: int| covn(px, py) || (py == rowe && loe <= px <= hie)),
                color,
            );
        }
        let ghost prev6 = *self;
        self.draw_horizontal_line(cx - last_x, cx + last_x, cy - last_y, color);
        proof {
            assert forall|px: int, py: int| orig.in_view(px, py) implies !((covn(px, py) || (py
                == rowe && loe <= px <= hie)) && (py == rowf && loe <= px <= hie)) by {
                if covn(px, py) {
                    lemma_partial_rows(ri, cxi, cyi, nend, px, py);
                }
            }
            lemma_paints_compose(
                orig,
                prev6,
                *self,
                (|px: int, py: int| covn(px, py) || (py == rowe && loe <= px <= hie)),
                (|px: int, py: int| py == rowf && loe <= px <= hie),
                (|px: int, py: int| covn(px, py) || ((py == rowe || py == rowf) && loe <= px
                    <= hie)),
                color,
            );
            assert forall|px: int, py: int| orig.in_view(px, py) implies ((covn(px, py) || ((py
                == rowe || py == rowf) && loe <= px <= hie)) <==> cov(px, py)) by {
                lemma_partial_to_cover(ri, cxi, cyi, nend, px, py);
                if cov(px, py) {
                    lemma_cover_to_partial(ri, cxi, cyi, nend, px, py);
                }
            }
            lemma_paints_weaken(
                orig,
                *self,
                (|px: int, py: int| covn(px, py) || ((py == rowe || py == rowf) && loe <= px
                    <= hie)),
                cov,
                color,
            );
        }
    }
}

/// The three vertices reordered by ascending y, with the swap order of a
/// three-step exchange sort (ties keep their relative order accordingly).
pub open spec fn sort_y(x0: int, y0: int, x1: int, y1: int, x2: int, y2: int) -> (
    int,
    int,
    int,
    int,
    int,
    int,
) {
    let (ax0, ay0, ax1, ay1) = if y0 > y1 {
        (x1, y1, x0, y0)
    } else {
        (x0, y0, x1, y1)
    };
    let (bx1, by1, bx2, by2) = if ay1 > y2 {
        (x2, y2, ax1, ay1)
    } else {
        (ax1, ay1, x2, y2)
    };
    let (cx0, cy0, cx1, cy1) = if ay0 > by1 {
        (bx1, by1, ax0, ay0)
    } else {
        (ax0, ay0, bx1, by1)
    };
    (cx0, cy0, cx1, cy1, bx2, by2)
}

/// Whether view pixel (px, py) is written by the two-trapezoid sweep of the
/// y-sorted triangle (x0, y0), (x1, y1), (x2, y2): for each row, the span
/// between the first pixels of the two active edge traversals on that row.
pub open spec fn tri_covers(
    x0: int,
    y0: int,
    x1: int,
    y1: int,
    x2: int,
    y2: int,
    px: int,
    py: int,
) -> bool {
    ||| (y0 != y1 && y0 <= py <= y1 && mini(row_x(x0, y0, x1, y1, py), row_x(x0, y0, x2, y2, py))
        <= px <= maxi(row_x(x0, y0, x1, y1, py), row_x(x0, y0, x2, y2, py)))
    ||| (y1 != y2 && (if y0 != y1 {
        y1 + 1
    } else {
        y0
    }) <= py <= y2 && mini(row_x(x1, y1, x2, y2, py), row_x(x0, y0, x2, y2, py)) <= px <= maxi(
        row_x(x1, y1, x2, y2, py),
        row_x(x0, y0, x2, y2, py),
    ))
}

/// The single pixel at (sx, sy2).
pub open spec fn stamp_cov(sx: int, sy2: int) -> spec_fn(int, int) -> bool {
    |px: int, py: int| px == sx && py == sy2
}

/// `b` is `a` with the pixel at (sx, sy2) written first (clipped to the
/// view) and then the `cov` region painted: the bottom vertex of a triangle
/// is stamped before its rows are swept, so in blend mode it can be
/// blended twice.
pub open spec fn paints_after_stamp(
    a: Renderer,
    b: Renderer,
    sx: int,
    sy2: int,
    cov: spec_fn(int, int) -> bool,
    color: u32,
) -> bool {
    exists|mid: Renderer|
        #[trigger] paints(a, mid, stamp_cov(sx, sy2), color) && paints(mid, b, cov, color)
}

/// Reorders the three vertices by ascending y with a three-step exchange.
fn sort_by_y(x0: &mut i32, y0: &mut i32, x1: &mut i32, y1: &mut i32, x2: &mut i32, y2: &mut i32)
    ensures
        (
            *final(x0) as int,
            *final(y0) as int,
            *final(x1) as int,
            *final(y1) as int,
            *final(x2) as int,
            *final(y2) as int,
        ) == sort_y(
            *old(x0) as int,
            *old(y0) as int,
            *old(x1) as int,
            *old(y1) as int,
            *old(x2) as int,
            *old(y2) as int,
        ),
        *final(y0) <= *final(y1) <= *final(y2),
{
    if *y0 > *y1 {
        let t = *y0;
        *y0 = *y1;
        *y1 = t;
        let t = *x0;
        *x0 = *x1;
        *x1 = t;
    }
    if *y1 > *y2 {
        let t = *y1;
        *y1 = *y2;
        *y2 = t;
        let t = *x1;
        *x1 = *x2;
        *x2 = t;
    }
    if *y0 > *y1 {
        let t = *y0;
        *y0 = *y1;
        *y1 = t;
        let t = *x0;
        *x0 = *x1;
        *x1 = t;
    }
}

impl Renderer {
    /// Fills the triangle with the given vertices, clipped to the view,
    /// under the current mode: the bottom vertex is stamped once, then the
    /// rows of the upper and lower trapezoid are swept between the edge
    /// traversals.
    pub fn fill_triangle(
        &mut self,
        x0: i32,
        y0: i32,
        x1: i32,
        y1: i32,
        x2: i32,
        y2: i32,
        color: u32,
    )
        requires
            old(self).wf(),
        ensures
            final(self).wf(),
            ({
                let s = sort_y(x0 as int, y0 as int, x1 as int, y1 as int, x2 as int, y2 as int);
                paints_after_stamp(
                    *old(self),
                    *final(self),
                    s.4,
                    s.5,
                    (|px: int, py: int| tri_covers(s.0, s.1, s.2, s.3, s.4, s.5, px, py)),
                    color,
                )
            }),
    {
        let ghost orig = *self;
        let mut x0 = x0;
        let mut y0 = y0;
        let mut x1 = x1;
        let mut y1 = y1;
        let mut x2 = x2;
        let mut y2 = y2;
        sort_by_y(&mut x0, &mut y0, &mut x1, &mut y1, &mut x2, &mut y2);
        let ghost a0 = x0 as int;
        let ghost b0 = y0 as int;
        let ghost a1 = x1 as int;
        let ghost b1 = y1 as int;
        let ghost a2 = x2 as int;
        let ghost b2 = y2 as int;
        let ghost cov = (|px: int, py: int| tri_covers(a0, b0, a1, b1, a2, b2, px, py));
        self.draw_pixel(x2, y2, color);
        let ghost gmid = *self;
        proof {
            lemma_paints_weaken(
                orig,
                gmid,
                (|px: int, py: int| px == x2 as int && py == y2 as int),
                stamp_cov(a2, b2),
                color,
            );
        }
        let mut ray0 = Ray::new(x0, y0, x1, y1);
        let mut ray1 = Ray::new(x1, y1, x2, y2);
        let mut ray2 = Ray::new(x0, y0, x2, y2);
        let mut row: i64 = y0 as i64;
        let (mut cx0, mut cy0) = (0i32, 0i32);
        let (mut cx1, mut cy1) = (0i32, 0i32);
        let (mut cx2, mut cy2) = (0i32, 0i32);
        let e0 = ray0.next_xy();
        cx0 = e0.0;
        cy0 = e0.1;
        let e1 = ray1.next_xy();
        cx1 = e1.0;
        cy1 = e1.1;
        let e2 = ray2.next_xy();
        cx2 = e2.0;
        cy2 = e2.1;
        proof {
            lemma_bres_point_zero(a0, b0, a1, b1);
            lemma_bres_point_zero(a1, b1, a2, b2);
            lemma_bres_point_zero(a0, b0, a2, b2);
        }
        if y1 != y0 {
            while row <= (ray0.y1 as i64)
                invariant
                    gmid.wf(),
                    self.wf(),
                    self.width == gmid.width,
                    self.height == gmid.height,
                    b0 < b1 <= b2,
                    ray0.wf() && ray0.x0 as int == a0 && ray0.y0 as int == b0 && ray0.x1 as int
                        == a1 && ray0.y1 as int == b1,
                    ray2.wf() && ray2.x0 as int == a0 && ray2.y0 as int == b0 && ray2.x1 as int
                        == a2 && ray2.y1 as int == b2,
                    1 <= ray0.taken() <= ray0.total() + 1,
                    1 <= ray2.taken() <= ray2.total() + 1,
                    (cx0 as int, cy0 as int) == bres_point(a0, b0, a1, b1, ray0.taken() - 1),
                    (cx2 as int, cy2 as int) == bres_point(a0, b0, a2, b2, ray2.taken() - 1),
                    b0 <= row <= b1 + 1,
                    cy0 as int <= row as int,
                    cy2 as int <= row as int,
                    cy0 as int == row as int ==> (ray0.taken() - 1 == 0 || bres_point(
                        a0,
                        b0,
                        a1,
                        b1,
                        ray0.taken() - 2,
                    ).1 < row as int),
                    cy2 as int == row as int ==> (ray2.taken() - 1 == 0 || bres_point(
                        a0,
                        b0,
                        a2,
                        b2,
                        ray2.taken() - 2,
                    ).1 < row as int),
                    paints(
                        gmid,
                        *self,
                        (|px: int, py: int| b0 <= py < row as int && mini(
                            row_x(a0, b0, a1, b1, py),
                            row_x(a0, b0, a2, b2, py),
                        ) <= px <= maxi(row_x(a0, b0, a1, b1, py), row_x(a0, b0, a2, b2, py))),
                        color,
                    ),
                decreases b1 + 1 - row,
            {
                let s0 = ray0.seek_row(cx0, cy0, row);
                cx0 = s0.0;
                cy0 = s0.1;
                let s2 = ray2.seek_row(cx2, cy2, row);
                cx2 = s2.0;
                cy2 = s2.1;
                let ghost prev = *self;
                self.draw_horizontal_line(cx0 as i64, cx2 as i64, row, color);
                proof {
                    lemma_paints_compose(
                        gmid,
                        prev,
                        *self,
                        (|px: int, py: int| b0 <= py < row as int && mini(
                            row_x(a0, b0, a1, b1, py),
                            row_x(a0, b0, a2, b2, py),
                        ) <= px <= maxi(row_x(a0, b0, a1, b1, py), row_x(a0, b0, a2, b2, py))),
                        (|px: int, py: int| py == row as int && mini(cx0 as int, cx2 as int) <= px
                            <= maxi(cx0 as int, cx2 as int)),
                        (|px: int, py: int| b0 <= py < row as int + 1 && mini(
                            row_x(a0, b0, a1, b1, py),
                            row_x(a0, b0, a2, b2, py),
                        ) <= px <= maxi(row_x(a0, b0, a1, b1, py), row_x(a0, b0, a2, b2, py))),
                        color,
                    );
                }
                row = row + 1;
            }
        }
        let ghost lower_start = if b0 != b1 {
            b1 + 1
        } else {
            b0
        };
        proof {
            assert(row as int == lower_start);
        }
        if y1 != y2 {
            while row <= (ray1.y1 as i64)
                invariant
                    gmid.wf(),
                    self.wf(),
                    self.width == gmid.width,
                    self.height == gmid.height,
                    b0 <= b1 < b2,
                    lower_start == (if b0 != b1 {
                        b1 + 1
                    } else {
                        b0
                    }),
                    ray1.wf() && ray1.x0 as int == a1 && ray1.y0 as int == b1 && ray1.x1 as int
                        == a2 && ray1.y1 as int == b2,
                    ray2.wf() && ray2.x0 as int == a0 && ray2.y0 as int == b0 && ray2.x1 as int
                        == a2 && ray2.y1 as int == b2,
                    1 <= ray1.taken() <= ray1.total() + 1,
                    1 <= ray2.taken() <= ray2.total() + 1,
                    (cx1 as int, cy1 as int) == bres_point(a1, b1, a2, b2, ray1.taken() - 1),
                    (cx2 as int, cy2 as int) == bres_point(a0, b0, a2, b2, ray2.taken() - 1),
                    lower_start <= row <= b2 + 1,
                    cy1 as int <= row as int,
                    cy2 as int <= row as int,
                    cy1 as int == row as int ==> (ray1.taken() - 1 == 0 || bres_point(
                        a1,
                        b1,
                        a2,
                        b2,
                        ray1.taken() - 2,
                    ).1 < row as int),
                    cy2 as int == row as int ==> (ray2.taken() - 1 == 0 || bres_point(
                        a0,
                        b0,
                        a2,
                        b2,
                        ray2.taken() - 2,
                    ).1 < row as int),
                    paints(
                        gmid,
                        *self,
                        (|px: int, py: int| (b0 != b1 && b0 <= py <= b1 && mini(
                            row_x(a0, b0, a1, b1, py),
                            row_x(a0, b0, a2, b2, py),
                        ) <= px <= maxi(row_x(a0, b0, a1, b1, py), row_x(a0, b0, a2, b2, py))) || (
                        lower_start <= py < row as int && mini(
                            row_x(a1, b1, a2, b2, py),
                            row_x(a0, b0, a2, b2, py),
                        ) <= px <= maxi(row_x(a1, b1, a2, b2, py), row_x(a0, b0, a2, b2, py)))),
                        color,
                    ),
                decreases b2 + 1 - row,
            {
                let s1 = ray1.seek_row(cx1, cy1, row);
                cx1 = s1.0;
                cy1 = s1.1;
                let s2 = ray2.seek_row(cx2, cy2, row);
                cx2 = s2.0;
                cy2 = s2.1;
                let ghost prev = *self;
                self.draw_horizontal_line(cx1 as i64, cx2 as i64, row, color);
                proof {
                    lemma_paints_compose(
                        gmid,
                        prev,
                        *self,
                        (|px: int, py: int| (b0 != b1 && b0 <= py <= b1 && mini(
                            row_x(a0, b0, a1, b1, py),
                            row_x(a0, b0, a2, b2, py),
                        ) <= px <= maxi(row_x(a0, b0, a1, b1, py), row_x(a0, b0, a2, b2, py))) || (
                        lower_start <= py < row as int && mini(
                            row_x(a1, b1, a2, b2, py),
                            row_x(a0, b0, a2, b2, py),
                        ) <= px <= maxi(row_x(a1, b1, a2, b2, py), row_x(a0, b0, a2, b2, py)))),
                        (|px: int, py: int| py == row as int && mini(cx1 as int, cx2 as int) <= px
                            <= maxi(cx1 as int, cx2 as int)),
                        (|px: int, py: int| (b0 != b1 && b0 <= py <= b1 && mini(
                            row_x(a0, b0, a1, b1, py),
                            row_x(a0, b0, a2, b2, py),
                        ) <= px <= maxi(row_x(a0, b0, a1, b1, py), row_x(a0, b0, a2, b2, py))) || (
                        lower_start <= py < row as int + 1 && mini(
                            row_x(a1, b1, a2, b2, py),
                            row_x(a0, b0, a2, b2, py),
                        ) <= px <= maxi(row_x(a1, b1, a2, b2, py), row_x(a0, b0, a2, b2, py)))),
                        color,
                    );
                }
                row = row + 1;
            }
        }
        proof {
            if b0 != b1 && b1 != b2 {
                lemma_paints_weaken(
                    gmid,
                    *self,
                    (|px: int, py: int| (b0 != b1 && b0 <= py <= b1 && mini(
                        row_x(a0, b0, a1, b1, py),
                        row_x(a0, b0, a2, b2, py),
                    ) <= px <= maxi(row_x(a0, b0, a1, b1, py), row_x(a0, b0, a2, b2, py))) || (
                    lower_start <= py < row as int && mini(
                        row_x(a1, b1, a2, b2, py),
                        row_x(a0, b0, a2, b2, py),
                    ) <= px <= maxi(row_x(a1, b1, a2, b2, py), row_x(a0, b0, a2, b2, py)))),
                    cov,
                    color,
                );
            } else if b0 != b1 {
                lemma_paints_weaken(
                    gmid,
                    *self,
                    (|px: int, py: int| b0 <= py < row as int && mini(
                        row_x(a0, b0, a1, b1, py),
                        row_x(a0, b0, a2, b2, py),
                    ) <= px <= maxi(row_x(a0, b0, a1, b1, py), row_x(a0, b0, a2, b2, py))),
                    cov,
                    color,
                );
            } else if b1 != b2 {
                lemma_paints_weaken(
                    gmid,
                    *self,
                    (|px: int, py: int| (b0 != b1 && b0 <= py <= b1 && mini(
                        row_x(a0, b0, a1, b1, py),
                        row_x(a0, b0, a2, b2, py),
                    ) <= px <= maxi(row_x(a0, b0, a1, b1, py), row_x(a0, b0, a2, b2, py))) || (
                    lower_start <= py < row as int && mini(
                        row_x(a1, b1, a2, b2, py),
                        row_x(a0, b0, a2, b2, py),
                    ) <= px <= maxi(row_x(a1, b1, a2, b2, py), row_x(a0, b0, a2, b2, py)))),
                    cov,
                    color,
                );
            } else {
                assert(paints(gmid, *self, cov, color));
            }
            assert(paints_after_stamp(orig, *self, a2, b2, cov, color));
        }
    }
}

/// `next` is `prev` with exactly the covered view pixels written with the
/// per-pixel color `colf` under `prev`'s write mode, and everything else
/// untouched.
pub open spec fn paints_colored(
    prev: Renderer,
    next: Renderer,
    cov: spec_fn(int, int) -> bool,
    colf: spec_fn(int, int) -> u32,
) -> bool {
    &&& next.shape_eq(prev)
    &&& next.is_blending() == prev.is_blending()
    &&& forall|x: int, y: int|
        prev.in_view(x, y) ==> #[trigger] next.pix(x, y) == (if cov(x, y) {
            prev.write_pix(prev.pix(x, y), colf(x, y))
        } else {
            prev.pix(x, y)
        })
    &&& forall|i: int|
        0 <= i < prev.buf().len() && !prev.is_view_idx(i) ==> #[trigger] next.buf()[i]
            == prev.buf()[i]
}

/// Painting one colored region and then a disjoint one paints their union.
pub proof fn lemma_paints_colored_compose(
    a: Renderer,
    b: Renderer,
    c: Renderer,
    cov1: spec_fn(int, int) -> bool,
    cov2: spec_fn(int, int) -> bool,
    cov: spec_fn(int, int) -> bool,
    colf: spec_fn(int, int) -> u32,
)
    requires
        a.wf(),
        paints_colored(a, b, cov1, colf),
        paints_colored(b, c, cov2, colf),
        forall|x: int, y: int| a.in_view(x, y) ==> !(#[trigger] cov1(x, y) && #[trigger] cov2(x, y)),
        forall|x: int, y: int|
            a.in_view(x, y) ==> (#[trigger] cov(x, y) <==> cov1(x, y) || cov2(x, y)),
    ensures
        paints_colored(a, c, cov, colf),
{
    assert forall|x: int, y: int| a.in_view(x, y) implies #[trigger] c.pix(x, y) == (if cov(x, y) {
        a.write_pix(a.pix(x, y), colf(x, y))
    } else {
        a.pix(x, y)
    }) by {
        assert(b.pix(x, y) == (if cov1(x, y) {
            a.write_pix(a.pix(x, y), colf(x, y))
        } else {
            a.pix(x, y)
        }));
    }
}

/// A colored paint with a pointwise equal region and colors is the same
/// paint.
pub proof fn lemma_paints_colored_weaken(
    a: Renderer,
    b: Renderer,
    cov1: spec_fn(int, int) -> bool,
    colf1: spec_fn(int, int) -> u32,
    cov2: spec_fn(int, int) -> bool,
    colf2: spec_fn(int, int) -> u32,
)
    requires
        paints_colored(a, b, cov1, colf1),
        forall|x: int, y: int|
            a.in_view(x, y) ==> (#[trigger] cov1(x, y) <==> #[trigger] cov2(x, y)),
        forall|x: int, y: int|
            a.in_view(x, y) && cov1(x, y) ==> #[trigger] colf1(x, y) == #[trigger] colf2(x, y),
    ensures
        paints_colored(a, b, cov2, colf2),
{
    assert forall|x: int, y: int| a.in_view(x, y) implies #[trigger] b.pix(x, y) == (if cov2(x, y) {
        a.write_pix(a.pix(x, y), colf2(x, y))
    } else {
        a.pix(x, y)
    }) by {
        assert(b.pix(x, y) == (if cov1(x, y) {
            a.write_pix(a.pix(x, y), colf1(x, y))
        } else {
            a.pix(x, y)
        }));
    }
}

/// A plain paint is a colored paint with a constant color.
pub proof fn lemma_paints_to_colored(
    a: Renderer,
    b: Renderer,
    cov: spec_fn(int, int) -> bool,
    color: u32,
)
    requires
        paints(a, b, cov, color),
    ensures
        paints_colored(a, b, cov, (|x: int, y: int| color)),
{
    assert forall|x: int, y: int| a.in_view(x, y) implies #[trigger] b.pix(x, y) == (if cov(x, y) {
        a.write_pix(a.pix(x, y), color)
    } else {
        a.pix(x, y)
    }) by {
        assert(b.pix(x, y) == (if cov(x, y) {
            a.write_pix(a.pix(x, y), color)
        } else {
            a.pix(x, y)
        }));
    }
}

/// `next` is `prev` with every view pixel of positive sample count
/// source-over blended (regardless of the mode) with the alpha-scaled
/// per-pixel color, and everything else untouched.
pub open spec fn paints_aa(
    prev: Renderer,
    next: Renderer,
    cnt: spec_fn(int, int) -> int,
    colf: spec_fn(int, int) -> u32,
) -> bool {
    &&& next.shape_eq(prev)
    &&& next.is_blending() == prev.is_blending()
    &&& forall|x: int, y: int|
        prev.in_view(x, y) ==> #[trigger] next.pix(x, y) == (if cnt(x, y) > 0 {
            spec_blend(prev.pix(x, y), spec_aa_color(cnt(x, y), colf(x, y), prev.is_blending()))
        } else {
            prev.pix(x, y)
        })
    &&& forall|i: int|
        0 <= i < prev.buf().len() && !prev.is_view_idx(i) ==> #[trigger] next.buf()[i]
            == prev.buf()[i]
}

/// Two antialiased paints over pixel-disjoint counts combine to their sum.
pub proof fn lemma_paints_aa_compose(
    a: Renderer,
    b: Renderer,
    c: Renderer,
    cnt1: spec_fn(int, int) -> int,
    cnt2: spec_fn(int, int) -> int,
    cnt: spec_fn(int, int) -> int,
    colf: spec_fn(int, int) -> u32,
)
    requires
        a.wf(),
        paints_aa(a, b, cnt1, colf),
        paints_aa(b, c, cnt2, colf),
        forall|x: int, y: int|
            a.in_view(x, y) ==> 0 <= #[trigger] cnt1(x, y) && 0 <= #[trigger] cnt2(x, y) && !(cnt1(
                x,
                y,
            ) > 0 && cnt2(x, y) > 0),
        forall|x: int, y: int|
            a.in_view(x, y) ==> #[trigger] cnt(x, y) == cnt1(x, y) + cnt2(x, y),
    ensures
        paints_aa(a, c, cnt, colf),
{
    assert forall|x: int, y: int| a.in_view(x, y) implies #[trigger] c.pix(x, y) == (if cnt(x, y)
        > 0 {
        spec_blend(a.pix(x, y), spec_aa_color(cnt(x, y), colf(x, y), a.is_blending()))
    } else {
        a.pix(x, y)
    }) by {
        assert(b.pix(x, y) == (if cnt1(x, y) > 0 {
            spec_blend(a.pix(x, y), spec_aa_color(cnt1(x, y), colf(x, y), a.is_blending()))
        } else {
            a.pix(x, y)
        }));
    }
}

/// An antialiased paint with pointwise equal counts and colors is the same
/// paint.
pub proof fn lemma_paints_aa_weaken(
    a: Renderer,
    b: Renderer,
    cnt1: spec_fn(int, int) -> int,
    colf1: spec_fn(int, int) -> u32,
    cnt2: spec_fn(int, int) -> int,
    colf2: spec_fn(int, int) -> u32,
)
    requires
        paints_aa(a, b, cnt1, colf1),
        forall|x: int, y: int|
            a.in_view(x, y) ==> #[trigger] cnt1(x, y) == #[trigger] cnt2(x, y),
        forall|x: int, y: int|
            a.in_view(x, y) && cnt1(x, y) > 0 ==> #[trigger] colf1(x, y) == #[trigger] colf2(x, y),
    ensures
        paints_aa(a, b, cnt2, colf2),
{
    assert forall|x: int, y: int| a.in_view(x, y) implies #[trigger] b.pix(x, y) == (if cnt2(x, y)
        > 0 {
        spec_blend(a.pix(x, y), spec_aa_color(cnt2(x, y), colf2(x, y), a.is_blending()))
    } else {
        a.pix(x, y)
    }) by {
        assert(b.pix(x, y) == (if cnt1(x, y) > 0 {
            spec_blend(a.pix(x, y), spec_aa_color(cnt1(x, y), colf1(x, y), a.is_blending()))
        } else {
            a.pix(x, y)
        }));
    }
}

impl Renderer {
    /// Source-over blends one view pixel, without bounds checks,
    /// independently of the mode: antialiased writes always blend.
    fn blend_pixel_unchecked(&mut self, x: u32, y: u32, color: u32)
        requires
            old(self).wf(),
            x < old(self).width,
            y < old(self).height,
        ensures
            final(self).wf(),
            final(self).shape_eq(*old(self)),
            final(self).is_blending() == old(self).is_blending(),
            final(self).buf() == old(self).buf().update(
                old(self).idx(x as int, y as int),
                spec_blend(old(self).pix(x as int, y as int), color),
            ),
    {
        let n = self.buffer.len();
        proof {
            self.lemma_idx_view(x as int, y as int);
        }
        let i = self.start + (y as usize) * (self.stride as usize) + (x as usize);
        let mut p = self.buffer[i];
        blend_color(&mut p, color);
        self.buffer[i] = p;
    }

    /// A single blended store at a view coordinate is an antialiased paint
    /// of that one pixel.
    proof fn lemma_update_paints_aa(
        self,
        next: Renderer,
        x: int,
        y: int,
        n: int,
        colv: u32,
        colf: spec_fn(int, int) -> u32,
    )
        requires
            self.wf(),
            self.in_view(x, y),
            n > 0,
            next.width == self.width,
            next.height == self.height,
            next.stride == self.stride,
            next.origin() == self.origin(),
            next.is_blending() == self.is_blending(),
            colf(x, y) == colv,
            next.buf() == self.buf().update(
                self.idx(x, y),
                spec_blend(self.pix(x, y), spec_aa_color(n, colv, self.is_blending())),
            ),
        ensures
            paints_aa(
                self,
                next,
                (|px: int, py: int| if px == x && py == y {
                    n
                } else {
                    0
                }),
                colf,
            ),
    {
        self.lemma_idx_view(x, y);
        assert forall|px: int, py: int| self.in_view(px, py) implies #[trigger] next.pix(px, py)
            == (if (if px == x && py == y {
            n
        } else {
            0
        }) > 0 {
            spec_blend(
                self.pix(px, py),
                spec_aa_color(
                    (if px == x && py == y {
                        n
                    } else {
                        0
                    }),
                    colf(px, py),
                    self.is_blending(),
                ),
            )
        } else {
            self.pix(px, py)
        }) by {
            self.lemma_idx_view(px, py);
            if px == x && py == y {
            } else {
                assert(self.idx(px, py) != self.idx(x, y)) by {
                    if self.idx(px, py) == self.idx(x, y) {
                        self.lemma_idx_injective(px, py, x, y);
                    }
                }
            }
        }
    }
}

/// The corners of the axis-aligned bounding box of three vertices.
fn triangle_bounding_box(x0: i32, y0: i32, x1: i32, y1: i32, x2: i32, y2: i32) -> (r: (
    (i32, i32),
    (i32, i32),
))
    ensures
        r.0.0 as int == mini(mini(x0 as int, x1 as int), x2 as int),
        r.0.1 as int == mini(mini(y0 as int, y1 as int), y2 as int),
        r.1.0 as int == maxi(maxi(x0 as int, x1 as int), x2 as int),
        r.1.1 as int == maxi(maxi(y0 as int, y1 as int), y2 as int),
{
    let xmin = if x0 < x1 {
        if x0 < x2 {
            x0
        } else {
            x2
        }
    } else {
        if x1 < x2 {
            x1
        } else {
            x2
        }
    };
    let xmax = if x0 > x1 {
        if x0 > x2 {
            x0
        } else {
            x2
        }
    } else {
        if x1 > x2 {
            x1
        } else {
            x2
        }
    };
    let ymin = if y0 < y1 {
        if y0 < y2 {
            y0
        } else {
            y2
        }
    } else {
        if y1 < y2 {
            y1
        } else {
            y2
        }
    };
    let ymax = if y0 > y1 {
        if y0 > y2 {
            y0
        } else {
            y2
        }
    } else {
        if y1 > y2 {
            y1
        } else {
            y2
        }
    };
    ((xmin, ymin), (xmax, ymax))
}

impl Renderer {
    /// Fills the circle of radius r around (center_x, center_y) with
    /// supersampled antialiasing: every bounding-box pixel some of whose
    /// four samples fall inside the circle is source-over blended —
    /// whatever the mode — with the coverage-scaled color.
    pub fn fill_circle_aa(&mut self, center_x: i32, center_y: i32, r: u32, color: u32)
        requires
            old(self).wf(),
        ensures
            final(self).wf(),
            paints_aa(
                *old(self),
                *final(self),
                (|px: int, py: int| if rect_covers(
                    center_x - r,
                    center_y - r,
                    2 * r + 1,
                    2 * r + 1,
                    old(self).width as int,
                    old(self).height as int,
                    px,
                    py,
                ) {
                    circle_sample_count(center_x as int, center_y as int, r as int, px, py)
                } else {
                    0
                }),
                (|px: int, py: int| color),
            ),
    {
        let ghost orig = *self;
        let ghost cxi = center_x as int;
        let ghost cyi = center_y as int;
        let ghost ri = r as int;
        let ghost colf = (|px: int, py: int| color);
        let ghost cnt_all = (|px: int, py: int| if rect_covers(
            cxi - ri,
            cyi - ri,
            2 * ri + 1,
            2 * ri + 1,
            orig.width as int,
            orig.height as int,
            px,
            py,
        ) {
            circle_sample_count(cxi, cyi, ri, px, py)
        } else {
            0
        });
        let rr = r as i64;
        if let Some(((rx0, ry0), (rx1, ry1))) = normalize_rect(
            (center_x as i64) - rr,
            (center_y as i64) - rr,
            2 * rr + 1,
            2 * rr + 1,
            self.width,
            self.height,
        ) {
            let mut yy = ry0;
            while yy <= ry1
                invariant
                    orig.wf(),
                    self.wf(),
                    self.width == orig.width,
                    self.height == orig.height,
                    cxi == center_x as int && cyi == center_y as int && ri == r as int,
                    rx0 <= rx1 < orig.width,
                    ry0 <= yy <= ry1 + 1,
                    ry1 < orig.height,
                    forall|px: int, py: int|
                        #[trigger] rect_covers(
                            cxi - ri,
                            cyi - ri,
                            2 * ri + 1,
                            2 * ri + 1,
                            orig.width as int,
                            orig.height as int,
                            px,
                            py,
                        ) <==> rx0 <= px <= rx1 && ry0 <= py <= ry1,
                    paints_aa(
                        orig,
                        *self,
                        (|px: int, py: int| if rx0 <= px <= rx1 && ry0 <= py < yy {
                            circle_sample_count(cxi, cyi, ri, px, py)
                        } else {
                            0
                        }),
                        (|px: int, py: int| color),
                    ),
                decreases ry1 + 1 - yy,
            {
                let mut xx = rx0;
                while xx <= rx1
                    invariant
                        orig.wf(),
                        self.wf(),
                        self.width == orig.width,
                        self.height == orig.height,
                        cxi == center_x as int && cyi == center_y as int && ri == r as int,
                        rx0 <= xx <= rx1 + 1,
                        rx0 <= rx1 < orig.width,
                        ry0 <= yy <= ry1,
                        ry1 < orig.height,
                        paints_aa(
                            orig,
                            *self,
                            (|px: int, py: int| if rx0 <= px <= rx1 && (ry0 <= py < yy || (py == yy
                                && px < xx)) {
                                circle_sample_count(cxi, cyi, ri, px, py)
                            } else {
                                0
                            }),
                            (|px: int, py: int| color),
                        ),
                    decreases rx1 + 1 - xx,
                {
                    let cnt = crate::bary::circle_count_at(center_x, center_y, r, xx, yy);
                    if cnt > 0 {
                        let c2 = aa_color(cnt, color, self.blending);
                        let ghost prev = *self;
                        self.blend_pixel_unchecked(xx, yy, c2);
                        proof {
                            prev.lemma_update_paints_aa(
                                *self,
                                xx as int,
                                yy as int,
                                cnt as int,
                                color,
                                (|px: int, py: int| color),
                            );
                            lemma_paints_aa_compose(
                                orig,
                                prev,
                                *self,
                                (|px: int, py: int| if rx0 <= px <= rx1 && (ry0 <= py < yy || (py
                                    == yy && px < xx)) {
                                    circle_sample_count(cxi, cyi, ri, px, py)
                                } else {
                                    0
                                }),
                                (|px: int, py: int| if px == xx as int && py == yy as int {
                                    cnt as int
                                } else {
                                    0
                                }),
                                (|px: int, py: int| if rx0 <= px <= rx1 && (ry0 <= py < yy || (py
                                    == yy && px < xx + 1)) {
                                    circle_sample_count(cxi, cyi, ri, px, py)
                                } else {
                                    0
                                }),
                                (|px: int, py: int| color),
                            );
                        }
                    } else {
                        proof {
                            lemma_paints_aa_weaken(
                                orig,
                                *self,
                                (|px: int, py: int| if rx0 <= px <= rx1 && (ry0 <= py < yy || (py
                                    == yy && px < xx)) {
                                    circle_sample_count(cxi, cyi, ri, px, py)
                                } else {
                                    0
                                }),
                                (|px: int, py: int| color),
                                (|px: int, py: int| if rx0 <= px <= rx1 && (ry0 <= py < yy || (py
                                    == yy && px < xx + 1)) {
                                    circle_sample_count(cxi, cyi, ri, px, py)
                                } else {
                                    0
                                }),
                                (|px: int, py: int| color),
                            );
                        }
                    }
                    xx = xx + 1;
                }
                proof {
                    lemma_paints_aa_weaken(
                        orig,
                        *self,
                        (|px: int, py: int| if rx0 <= px <= rx1 && (ry0 <= py < yy || (py == yy
                            && px < xx)) {
                            circle_sample_count(cxi, cyi, ri, px, py)
                        } else {
                            0
                        }),
                        (|px: int, py: int| color),
                        (|px: int, py: int| if rx0 <= px <= rx1 && ry0 <= py < yy + 1 {
                            circle_sample_count(cxi, cyi, ri, px, py)
                        } else {
                            0
                        }),
                        (|px: int, py: int| color),
                    );
                }
                yy = yy + 1;
            }
            proof {
                lemma_paints_aa_weaken(
                    orig,
                    *self,
                    (|px: int, py: int| if rx0 <= px <= rx1 && ry0 <= py < yy {
                        circle_sample_count(cxi, cyi, ri, px, py)
                    } else {
                        0
                    }),
                    (|px: int, py: int| color),
                    cnt_all,
                    colf,
                );
            }
        } else {
            proof {
                assert(paints_aa(orig, *self, cnt_all, colf));
            }
        }
    }
}

impl Renderer {
    /// Fills the triangle with supersampled antialiasing: every
    /// bounding-box pixel some of whose four samples fall inside the
    /// triangle (vertices taken at pixel centers) is source-over blended —
    /// whatever the mode — with the coverage-scaled color.
    pub fn fill_triangle_aa(&mut self, x0: i32, y0: i32, x1: i32, y1: i32, x2: i32, y2: i32, color: u32)
        requires
            old(self).wf(),
        ensures
            final(self).wf(),
            paints_aa(
                *old(self),
                *final(self),
                (|px: int, py: int| if rect_covers(
                    mini(mini(x0 as int, x1 as int), x2 as int),
                    mini(mini(y0 as int, y1 as int), y2 as int),
                    maxi(maxi(x0 as int, x1 as int), x2 as int) - mini(
                        mini(x0 as int, x1 as int),
                        x2 as int,
                    ) + 1,
                    maxi(maxi(y0 as int, y1 as int), y2 as int) - mini(
                        mini(y0 as int, y1 as int),
                        y2 as int,
                    ) + 1,
                    old(self).width as int,
                    old(self).height as int,
                    px,
                    py,
                ) {
                    tri_sample_count(x0 as int, y0 as int, x1 as int, y1 as int, x2 as int, y2 as int, px, py)
                } else {
                    0
                }),
                (|px: int, py: int| color),
            ),
    {
        let ghost orig = *self;
        let ghost colf = (|px: int, py: int| color);
        let ghost cntin = (|px: int, py: int| tri_sample_count(x0 as int, y0 as int, x1 as int, y1 as int, x2 as int, y2 as int, px, py));
        let ghost cnt_all = (|px: int, py: int| if rect_covers(
            mini(mini(x0 as int, x1 as int), x2 as int),
            mini(mini(y0 as int, y1 as int), y2 as int),
            maxi(maxi(x0 as int, x1 as int), x2 as int) - mini(mini(x0 as int, x1 as int), x2 as int)
                + 1,
            maxi(maxi(y0 as int, y1 as int), y2 as int) - mini(mini(y0 as int, y1 as int), y2 as int)
                + 1,
            orig.width as int,
            orig.height as int,
            px,
            py,
        ) {
            cntin(px, py)
        } else {
            0
        });
        let ((bx0, by0), (bx1, by1)) = triangle_bounding_box(x0, y0, x1, y1, x2, y2);
        if let Some(((rx0, ry0), (rx1, ry1))) = normalize_rect(
            bx0 as i64,
            by0 as i64,
            (bx1 as i64) - (bx0 as i64) + 1,
            (by1 as i64) - (by0 as i64) + 1,
            self.width,
            self.height,
        ) {
            let mut yy = ry0;
            while yy <= ry1
                invariant
                    orig.wf(),
                    self.wf(),
                    self.width == orig.width,
                    self.height == orig.height,
                    rx0 <= rx1 < orig.width,
                    ry0 <= yy <= ry1 + 1,
                    ry1 < orig.height,
                    cntin == (|px: int, py: int| tri_sample_count(x0 as int, y0 as int, x1 as int, y1 as int, x2 as int, y2 as int, px, py)),
                    colf == (|px: int, py: int| color),
                    forall|px: int, py: int|
                        #[trigger] rect_covers(
                            mini(mini(x0 as int, x1 as int), x2 as int),
                            mini(mini(y0 as int, y1 as int), y2 as int),
                            maxi(maxi(x0 as int, x1 as int), x2 as int) - mini(
                                mini(x0 as int, x1 as int),
                                x2 as int,
                            ) + 1,
                            maxi(maxi(y0 as int, y1 as int), y2 as int) - mini(
                                mini(y0 as int, y1 as int),
                                y2 as int,
                            ) + 1,
                            orig.width as int,
                            orig.height as int,
                            px,
                            py,
                        ) <==> rx0 <= px <= rx1 && ry0 <= py <= ry1,
                    paints_aa(
                        orig,
                        *self,
                        (|px: int, py: int| if rx0 <= px <= rx1 && ry0 <= py < yy {
                            cntin(px, py)
                        } else {
                            0
                        }),
                        colf,
                    ),
                decreases ry1 + 1 - yy,
            {
                let mut xx = rx0;
                while xx <= rx1
                    invariant
                        orig.wf(),
                        self.wf(),
                        self.width == orig.width,
                        self.height == orig.height,
                        rx0 <= xx <= rx1 + 1,
                        rx0 <= rx1 < orig.width,
                        ry0 <= yy <= ry1,
                        ry1 < orig.height,
                        cntin == (|px: int, py: int| tri_sample_count(x0 as int, y0 as int, x1 as int, y1 as int, x2 as int, y2 as int, px, py)),
                        colf == (|px: int, py: int| color),
                        paints_aa(
                            orig,
                            *self,
                            (|px: int, py: int| if rx0 <= px <= rx1 && (ry0 <= py < yy || (py == yy
                                && px < xx)) {
                                cntin(px, py)
                            } else {
                                0
                            }),
                            colf,
                        ),
                    decreases rx1 + 1 - xx,
                {
                    let cnt = crate::bary::tri_count_at(x0, y0, x1, y1, x2, y2, xx, yy);
                    if cnt > 0 {
                        let wcol = color;
                        let c2 = aa_color(cnt, wcol, self.blending);
                        let ghost prev = *self;
                        self.blend_pixel_unchecked(xx, yy, c2);
                        proof {
                            prev.lemma_update_paints_aa(
                                *self,
                                xx as int,
                                yy as int,
                                cnt as int,
                                wcol,
                                colf,
                            );
                            lemma_paints_aa_compose(
                                orig,
                                prev,
                                *self,
                                (|px: int, py: int| if rx0 <= px <= rx1 && (ry0 <= py < yy || (py
                                    == yy && px < xx)) {
                                    cntin(px, py)
                                } else {
                                    0
                                }),
                                (|px: int, py: int| if px == xx as int && py == yy as int {
                                    cnt as int
                                } else {
                                    0
                                }),
                                (|px: int, py: int| if rx0 <= px <= rx1 && (ry0 <= py < yy || (py
                                    == yy && px < xx + 1)) {
                                    cntin(px, py)
                                } else {
                                    0
                                }),
                                colf,
                            );
                        }
                    } else {
                        proof {
                            lemma_paints_aa_weaken(
                                orig,
                                *self,
                                (|px: int, py: int| if rx0 <= px <= rx1 && (ry0 <= py < yy || (py
                                    == yy && px < xx)) {
                                    cntin(px, py)
                                } else {
                                    0
                                }),
                                colf,
                                (|px: int, py: int| if rx0 <= px <= rx1 && (ry0 <= py < yy || (py
                                    == yy && px < xx + 1)) {
                                    cntin(px, py)
                                } else {
                                    0
                                }),
                                colf,
                            );
                        }
                    }
                    xx = xx + 1;
                }
                proof {
                    lemma_paints_aa_weaken(
                        orig,
                        *self,
                        (|px: int, py: int| if rx0 <= px <= rx1 && (ry0 <= py < yy || (py == yy
                            && px < xx)) {
                            cntin(px, py)
                        } else {
                            0
                        }),
                        colf,
                        (|px: int, py: int| if rx0 <= px <= rx1 && ry0 <= py < yy + 1 {
                            cntin(px, py)
                        } else {
                            0
                        }),
                        colf,
                    );
                }
                yy = yy + 1;
            }
            proof {
                lemma_paints_aa_weaken(
                    orig,
                    *self,
                    (|px: int, py: int| if rx0 <= px <= rx1 && ry0 <= py < yy {
                        cntin(px, py)
                    } else {
                        0
                    }),
                    colf,
                    cnt_all,
                    colf,
                );
            }
        } else {
            proof {
                assert(paints_aa(orig, *self, cnt_all, colf));
            }
        }
    }
}

impl Renderer {
    /// Fills the triangle with supersampled antialiasing and per-vertex
    /// colors: a covered pixel is source-over blended — whatever the mode —
    /// with the color mixed at its first covered sample, alpha-scaled by
    /// the full coverage.
    pub fn fill_triangle_mix_aa(&mut self, x0: i32, y0: i32, c0: u32, x1: i32, y1: i32, c1: u32, x2: i32, y2: i32, c2: u32)
        requires
            old(self).wf(),
        ensures
            final(self).wf(),
            paints_aa(
                *old(self),
                *final(self),
                (|px: int, py: int| if rect_covers(
                    mini(mini(x0 as int, x1 as int), x2 as int),
                    mini(mini(y0 as int, y1 as int), y2 as int),
                    maxi(maxi(x0 as int, x1 as int), x2 as int) - mini(
                        mini(x0 as int, x1 as int),
                        x2 as int,
                    ) + 1,
                    maxi(maxi(y0 as int, y1 as int), y2 as int) - mini(
                        mini(y0 as int, y1 as int),
                        y2 as int,
                    ) + 1,
                    old(self).width as int,
                    old(self).height as int,
                    px,
                    py,
                ) {
                    tri_sample_count(x0 as int, y0 as int, x1 as int, y1 as int, x2 as int, y2 as int, px, py)
                } else {
                    0
                }),
                (|px: int, py: int| crate::bary::tri_first_color(c0, c1, c2, x0 as int, y0 as int, x1 as int, y1 as int, x2 as int, y2 as int, px, py)),
            ),
    {
        let ghost orig = *self;
        let ghost colf = (|px: int, py: int| crate::bary::tri_first_color(c0, c1, c2, x0 as int, y0 as int, x1 as int, y1 as int, x2 as int, y2 as int, px, py));
        let ghost cntin = (|px: int, py: int| tri_sample_count(x0 as int, y0 as int, x1 as int, y1 as int, x2 as int, y2 as int, px, py));
        let ghost cnt_all = (|px: int, py: int| if rect_covers(
            mini(mini(x0 as int, x1 as int), x2 as int),
            mini(mini(y0 as int, y1 as int), y2 as int),
            maxi(maxi(x0 as int, x1 as int), x2 as int) - mini(mini(x0 as int, x1 as int), x2 as int)
                + 1,
            maxi(maxi(y0 as int, y1 as int), y2 as int) - mini(mini(y0 as int, y1 as int), y2 as int)
                + 1,
            orig.width as int,
            orig.height as int,
            px,
            py,
        ) {
            cntin(px, py)
        } else {
            0
        });
        let ((bx0, by0), (bx1, by1)) = triangle_bounding_box(x0, y0, x1, y1, x2, y2);
        if let Some(((rx0, ry0), (rx1, ry1))) = normalize_rect(
            bx0 as i64,
            by0 as i64,
            (bx1 as i64) - (bx0 as i64) + 1,
            (by1 as i64) - (by0 as i64) + 1,
            self.width,
            self.height,
        ) {
            let mut yy = ry0;
            while yy <= ry1
                invariant
                    orig.wf(),
                    self.wf(),
                    self.width == orig.width,
                    self.height == orig.height,
                    rx0 <= rx1 < orig.width,
                    ry0 <= yy <= ry1 + 1,
                    ry1 < orig.height,
                    cntin == (|px: int, py: int| tri_sample_count(x0 as int, y0 as int, x1 as int, y1 as int, x2 as int, y2 as int, px, py)),
                    colf == (|px: int, py: int| crate::bary::tri_first_color(c0, c1, c2, x0 as int, y0 as int, x1 as int, y1 as int, x2 as int, y2 as int, px, py)),
                    forall|px: int, py: int|
                        #[trigger] rect_covers(
                            mini(mini(x0 as int, x1 as int), x2 as int),
                            mini(mini(y0 as int, y1 as int), y2 as int),
                            maxi(maxi(x0 as int, x1 as int), x2 as int) - mini(
                                mini(x0 as int, x1 as int),
                                x2 as int,
                            ) + 1,
                            maxi(maxi(y0 as int, y1 as int), y2 as int) - mini(
                                mini(y0 as int, y1 as int),
                                y2 as int,
                            ) + 1,
                            orig.width as int,
                            orig.height as int,
                            px,
                            py,
                        ) <==> rx0 <= px <= rx1 && ry0 <= py <= ry1,
                    paints_aa(
                        orig,
                        *self,
                        (|px: int, py: int| if rx0 <= px <= rx1 && ry0 <= py < yy {
                            cntin(px, py)
                        } else {
                            0
                        }),
                        colf,
                    ),
                decreases ry1 + 1 - yy,
            {
                let mut xx = rx0;
                while xx <= rx1
                    invariant
                        orig.wf(),
                        self.wf(),
                        self.width == orig.width,
                        self.height == orig.height,
                        rx0 <= xx <= rx1 + 1,
                        rx0 <= rx1 < orig.width,
                        ry0 <= yy <= ry1,
                        ry1 < orig.height,
                        cntin == (|px: int, py: int| tri_sample_count(x0 as int, y0 as int, x1 as int, y1 as int, x2 as int, y2 as int, px, py)),
                        colf == (|px: int, py: int| crate::bary::tri_first_color(c0, c1, c2, x0 as int, y0 as int, x1 as int, y1 as int, x2 as int, y2 as int, px, py)),
                        paints_aa(
                            orig,
                            *self,
                            (|px: int, py: int| if rx0 <= px <= rx1 && (ry0 <= py < yy || (py == yy
                                && px < xx)) {
                                cntin(px, py)
                            } else {
                                0
                            }),
                            colf,
                        ),
                    decreases rx1 + 1 - xx,
                {
                    let cm = crate::bary::tri_mix_count_at(c0, c1, c2, x0, y0, x1, y1, x2, y2, xx, yy);
                    let cnt = cm.0;
                    if cnt > 0 {
                        let wcol = cm.1;
                        let c2 = aa_color(cnt, wcol, self.blending);
                        let ghost prev = *self;
                        self.blend_pixel_unchecked(xx, yy, c2);
                        proof {
                            prev.lemma_update_paints_aa(
                                *self,
                                xx as int,
                                yy as int,
                                cnt as int,
                                wcol,
                                colf,
                            );
                            lemma_paints_aa_compose(
                                orig,
                                prev,
                                *self,
                                (|px: int, py: int| if rx0 <= px <= rx1 && (ry0 <= py < yy || (py
                                    == yy && px < xx)) {
                                    cntin(px, py)
                                } else {
                                    0
                                }),
                                (|px: int, py: int| if px == xx as int && py == yy as int {
                                    cnt as int
                                } else {
                                    0
                                }),
                                (|px: int, py: int| if rx0 <= px <= rx1 && (ry0 <= py < yy || (py
                                    == yy && px < xx + 1)) {
                                    cntin(px, py)
                                } else {
                                    0
                                }),
                                colf,
                            );
                        }
                    } else {
                        proof {
                            lemma_paints_aa_weaken(
                                orig,
                                *self,
                                (|px: int, py: int| if rx0 <= px <= rx1 && (ry0 <= py < yy || (py
                                    == yy && px < xx)) {
                                    cntin(px, py)
                                } else {
                                    0
                                }),
                                colf,
                                (|px: int, py: int| if rx0 <= px <= rx1 && (ry0 <= py < yy || (py
                                    == yy && px < xx + 1)) {
                                    cntin(px, py)
                                } else {
                                    0
                                }),
                                colf,
                            );
                        }
                    }
                    xx = xx + 1;
                }
                proof {
                    lemma_paints_aa_weaken(
                        orig,
                        *self,
                        (|px: int, py: int| if rx0 <= px <= rx1 && (ry0 <= py < yy || (py == yy
                            && px < xx)) {
                            cntin(px, py)
                        } else {
                            0
                        }),
                        colf,
                        (|px: int, py: int| if rx0 <= px <= rx1 && ry0 <= py < yy + 1 {
                            cntin(px, py)
                        } else {
                            0
                        }),
                        colf,
                    );
                }
                yy = yy + 1;
            }
            proof {
                lemma_paints_aa_weaken(
                    orig,
                    *self,
                    (|px: int, py: int| if rx0 <= px <= rx1 && ry0 <= py < yy {
                        cntin(px, py)
                    } else {
                        0
                    }),
                    colf,
                    cnt_all,
                    colf,
                );
            }
        } else {
            proof {
                assert(paints_aa(orig, *self, cnt_all, colf));
            }
        }
    }
}

/// The three vertices with their colors reordered by ascending y, with the
/// swap order of a three-step exchange sort.
pub open spec fn sort_y3(
    x0: int,
    y0: int,
    c0: u32,
    x1: int,
    y1: int,
    c1: u32,
    x2: int,
    y2: int,
    c2: u32,
) -> (int, int, u32, int, int, u32, int, int, u32) {
    let (ax0, ay0, ac0, ax1, ay1, ac1) = if y0 > y1 {
        (x1, y1, c1, x0, y0, c0)
    } else {
        (x0, y0, c0, x1, y1, c1)
    };
    let (bx1, by1, bc1, bx2, by2, bc2) = if ay1 > y2 {
        (x2, y2, c2, ax1, ay1, ac1)
    } else {
        (ax1, ay1, ac1, x2, y2, c2)
    };
    let (cx0, cy0, cc0, cx1, cy1, cc1) = if ay0 > by1 {
        (bx1, by1, bc1, ax0, ay0, ac0)
    } else {
        (ax0, ay0, ac0, bx1, by1, bc1)
    };
    (cx0, cy0, cc0, cx1, cy1, cc1, bx2, by2, bc2)
}

/// Whether view pixel (px, py) is written by the color-interpolating sweep
/// of the y-sorted triangle: as for the uniform fill, but each span is
/// further filtered to nonnegative barycentric coordinates, the upper rows
/// exclude their right end and the lower rows include it.
pub open spec fn tri_mix_covers(
    x0: int,
    y0: int,
    x1: int,
    y1: int,
    x2: int,
    y2: int,
    px: int,
    py: int,
) -> bool {
    ||| (y0 != y1 && y0 <= py <= y1 && mini(row_x(x0, y0, x1, y1, py), row_x(x0, y0, x2, y2, py))
        <= px < maxi(row_x(x0, y0, x1, y1, py), row_x(x0, y0, x2, y2, py)) && bary_nonneg(
        x0,
        y0,
        x1,
        y1,
        x2,
        y2,
        px,
        py,
    ))
    ||| (y1 != y2 && (if y0 != y1 {
        y1 + 1
    } else {
        y0
    }) <= py <= y2 && mini(row_x(x1, y1, x2, y2, py), row_x(x0, y0, x2, y2, py)) <= px <= maxi(
        row_x(x1, y1, x2, y2, py),
        row_x(x0, y0, x2, y2, py),
    ) && bary_nonneg(x0, y0, x1, y1, x2, y2, px, py))
}

/// `b` is `a` with the pixel at (sx, sy2) written first with `scol`
/// (clipped to the view) and then the `cov` region painted with the
/// per-pixel colors `colf`.
pub open spec fn paints_after_stamp_colored(
    a: Renderer,
    b: Renderer,
    sx: int,
    sy2: int,
    scol: u32,
    cov: spec_fn(int, int) -> bool,
    colf: spec_fn(int, int) -> u32,
) -> bool {
    exists|mid: Renderer|
        #[trigger] paints(a, mid, stamp_cov(sx, sy2), scol) && paints_colored(mid, b, cov, colf)
}

/// Reorders the three vertices and their colors by ascending y.
fn sort_by_y3(
    x0: &mut i32,
    y0: &mut i32,
    c0: &mut u32,
    x1: &mut i32,
    y1: &mut i32,
    c1: &mut u32,
    x2: &mut i32,
    y2: &mut i32,
    c2: &mut u32,
)
    ensures
        (
            *final(x0) as int,
            *final(y0) as int,
            *final(c0),
            *final(x1) as int,
            *final(y1) as int,
            *final(c1),
            *final(x2) as int,
            *final(y2) as int,
            *final(c2),
        ) == sort_y3(
            *old(x0) as int,
            *old(y0) as int,
            *old(c0),
            *old(x1) as int,
            *old(y1) as int,
            *old(c1),
            *old(x2) as int,
            *old(y2) as int,
            *old(c2),
        ),
        *final(y0) <= *final(y1) <= *final(y2),
{
    if *y0 > *y1 {
        let t = *y0;
        *y0 = *y1;
        *y1 = t;
        let t = *x0;
        *x0 = *x1;
        *x1 = t;
        let t = *c0;
        *c0 = *c1;
        *c1 = t;
    }
    if *y1 > *y2 {
        let t = *y1;
        *y1 = *y2;
        *y2 = t;
        let t = *x1;
        *x1 = *x2;
        *x2 = t;
        let t = *c1;
        *c1 = *c2;
        *c2 = t;
    }
    if *y0 > *y1 {
        let t = *y0;
        *y0 = *y1;
        *y1 = t;
        let t = *x0;
        *x0 = *x1;
        *x1 = t;
        let t = *c0;
        *c0 = *c1;
        *c1 = t;
    }
}

impl Renderer {
    /// Fills the triangle with colors interpolated barycentrically between
    /// its vertices, clipped to the view, under the current mode: the
    /// bottom vertex is stamped with its own color, then each row's span is
    /// walked pixel by pixel (upper rows excluding their right end, lower
    /// rows including it), skipping pixels with a negative barycentric
    /// coordinate.
    #[verifier::rlimit(80)]
    pub fn fill_triangle_mix(
        &mut self,
        x0: i32,
        y0: i32,
        c0: u32,
        x1: i32,
        y1: i32,
        c1: u32,
        x2: i32,
        y2: i32,
        c2: u32,
    )
        requires
            old(self).wf(),
        ensures
            final(self).wf(),
            ({
                let s = sort_y3(
                    x0 as int,
                    y0 as int,
                    c0,
                    x1 as int,
                    y1 as int,
                    c1,
                    x2 as int,
                    y2 as int,
                    c2,
                );
                paints_after_stamp_colored(
                    *old(self),
                    *final(self),
                    s.6,
                    s.7,
                    s.8,
                    (|px: int, py: int| tri_mix_covers(s.0, s.1, s.3, s.4, s.6, s.7, px, py)),
                    (|px: int, py: int| mix_at(s.2, s.5, s.8, s.0, s.1, s.3, s.4, s.6, s.7, px, py)),
                )
            }),
    {
        let ghost orig = *self;
        let mut x0 = x0;
        let mut y0 = y0;
        let mut c0 = c0;
        let mut x1 = x1;
        let mut y1 = y1;
        let mut c1 = c1;
        let mut x2 = x2;
        let mut y2 = y2;
        let mut c2 = c2;
        sort_by_y3(&mut x0, &mut y0, &mut c0, &mut x1, &mut y1, &mut c1, &mut x2, &mut y2, &mut c2);
        let ghost a0 = x0 as int;
        let ghost b0 = y0 as int;
        let ghost a1 = x1 as int;
        let ghost b1 = y1 as int;
        let ghost a2 = x2 as int;
        let ghost b2 = y2 as int;
        let ghost cov = (|px: int, py: int| tri_mix_covers(a0, b0, a1, b1, a2, b2, px, py));
        let ghost colf = (|px: int, py: int| mix_at(c0, c1, c2, a0, b0, a1, b1, a2, b2, px, py));
        self.draw_pixel(x2, y2, c2);
        let ghost gmid = *self;
        proof {
            lemma_paints_weaken(
                orig,
                gmid,
                (|px: int, py: int| px == x2 as int && py == y2 as int),
                stamp_cov(a2, b2),
                c2,
            );
            assert(paints_colored(gmid, gmid, (|px: int, py: int| false), colf));
        }
        let mut ray0 = Ray::new(x0, y0, x1, y1);
        let mut ray1 = Ray::new(x1, y1, x2, y2);
        let mut ray2 = Ray::new(x0, y0, x2, y2);
        let mut row: i64 = y0 as i64;
        let e0 = ray0.next_xy();
        let mut cx0 = e0.0;
        let mut cy0 = e0.1;
        let e1 = ray1.next_xy();
        let mut cx1 = e1.0;
        let mut cy1 = e1.1;
        let e2 = ray2.next_xy();
        let mut cx2 = e2.0;
        let mut cy2 = e2.1;
        proof {
            lemma_bres_point_zero(a0, b0, a1, b1);
            lemma_bres_point_zero(a1, b1, a2, b2);
            lemma_bres_point_zero(a0, b0, a2, b2);
        }
        if y1 != y0 {
            while row <= (ray0.y1 as i64)
                invariant
                    gmid.wf(),
                    self.wf(),
                    self.width == gmid.width,
                    self.height == gmid.height,
                    b0 < b1 <= b2,
                    a0 == x0 as int && b0 == y0 as int && a1 == x1 as int && b1 == y1 as int && a2
                        == x2 as int && b2 == y2 as int,
                    colf == (|px: int, py: int| mix_at(c0, c1, c2, a0, b0, a1, b1, a2, b2, px, py)),
                    ray0.wf() && ray0.x0 as int == a0 && ray0.y0 as int == b0 && ray0.x1 as int
                        == a1 && ray0.y1 as int == b1,
                    ray2.wf() && ray2.x0 as int == a0 && ray2.y0 as int == b0 && ray2.x1 as int
                        == a2 && ray2.y1 as int == b2,
                    1 <= ray0.taken() <= ray0.total() + 1,
                    1 <= ray2.taken() <= ray2.total() + 1,
                    (cx0 as int, cy0 as int) == bres_point(a0, b0, a1, b1, ray0.taken() - 1),
                    (cx2 as int, cy2 as int) == bres_point(a0, b0, a2, b2, ray2.taken() - 1),
                    b0 <= row <= b1 + 1,
                    cy0 as int <= row as int,
                    cy2 as int <= row as int,
                    cy0 as int == row as int ==> (ray0.taken() - 1 == 0 || bres_point(
                        a0,
                        b0,
                        a1,
                        b1,
                        ray0.taken() - 2,
                    ).1 < row as int),
                    cy2 as int == row as int ==> (ray2.taken() - 1 == 0 || bres_point(
                        a0,
                        b0,
                        a2,
                        b2,
                        ray2.taken() - 2,
                    ).1 < row as int),
                    paints_colored(
                        gmid,
                        *self,
                        (|px: int, py: int| b0 <= py < row as int && mini(
                            row_x(a0, b0, a1, b1, py),
                            row_x(a0, b0, a2, b2, py),
                        ) <= px < maxi(row_x(a0, b0, a1, b1, py), row_x(a0, b0, a2, b2, py))
                            && bary_nonneg(a0, b0, a1, b1, a2, b2, px, py)),
                        colf,
                    ),
                decreases b1 + 1 - row,
            {
                let s0 = ray0.seek_row(cx0, cy0, row);
                cx0 = s0.0;
                cy0 = s0.1;
                let s2 = ray2.seek_row(cx2, cy2, row);
                cx2 = s2.0;
                cy2 = s2.1;
                let (lo, hi) = if cx2 < cx0 {
                    (cx2, cx0)
                } else {
                    (cx0, cx2)
                };
                let mut xx: i64 = lo as i64;
                while xx < (hi as i64)
                    invariant
                        gmid.wf(),
                        self.wf(),
                        self.width == gmid.width,
                        self.height == gmid.height,
                        b0 < b1 <= b2,
                        a0 == x0 as int && b0 == y0 as int && a1 == x1 as int && b1 == y1 as int
                            && a2 == x2 as int && b2 == y2 as int,
                        colf == (|px: int, py: int| mix_at(c0, c1, c2, a0, b0, a1, b1, a2, b2, px, py)),
                        b0 <= row <= b1,
                        lo as int == mini(row_x(a0, b0, a1, b1, row as int), row_x(a0, b0, a2, b2, row as int)),
                        hi as int == maxi(row_x(a0, b0, a1, b1, row as int), row_x(a0, b0, a2, b2, row as int)),
                        lo as int <= xx <= hi as int,
                        paints_colored(
                            gmid,
                            *self,
                            (|px: int, py: int| (b0 <= py < row as int && mini(
                                row_x(a0, b0, a1, b1, py),
                                row_x(a0, b0, a2, b2, py),
                            ) <= px < maxi(row_x(a0, b0, a1, b1, py), row_x(a0, b0, a2, b2, py))
                                && bary_nonneg(a0, b0, a1, b1, a2, b2, px, py)) || (py
                                == row as int && lo <= px < xx && bary_nonneg(
                                a0,
                                b0,
                                a1,
                                b1,
                                a2,
                                b2,
                                px,
                                py,
                            ))),
                            colf,
                        ),
                    decreases hi as int - xx,
                {
                    if crate::bary::point_in_triangle(
                        x0 as i64,
                        y0 as i64,
                        x1 as i64,
                        y1 as i64,
                        x2 as i64,
                        y2 as i64,
                        xx,
                        row,
                    ) {
                        let col = crate::bary::mix_at_point(
                            c0,
                            c1,
                            c2,
                            x0 as i64,
                            y0 as i64,
                            x1 as i64,
                            y1 as i64,
                            x2 as i64,
                            y2 as i64,
                            xx,
                            row,
                        );
                        let ghost prev = *self;
                        self.draw_pixel(xx as i32, row as i32, col);
                        proof {
                            lemma_paints_to_colored(
                                prev,
                                *self,
                                (|px: int, py: int| px == xx as i32 as int && py
                                    == row as i32 as int),
                                col,
                            );
                            lemma_paints_colored_weaken(
                                prev,
                                *self,
                                (|px: int, py: int| px == xx as i32 as int && py
                                    == row as i32 as int),
                                (|px: int, py: int| col),
                                (|px: int, py: int| px == xx as int && py == row as int
                                    && bary_nonneg(a0, b0, a1, b1, a2, b2, px, py)),
                                colf,
                            );
                            lemma_paints_colored_compose(
                                gmid,
                                prev,
                                *self,
                                (|px: int, py: int| (b0 <= py < row as int && mini(
                                    row_x(a0, b0, a1, b1, py),
                                    row_x(a0, b0, a2, b2, py),
                                ) <= px < maxi(
                                    row_x(a0, b0, a1, b1, py),
                                    row_x(a0, b0, a2, b2, py),
                                ) && bary_nonneg(a0, b0, a1, b1, a2, b2, px, py)) || (py
                                    == row as int && lo <= px < xx && bary_nonneg(
                                    a0,
                                    b0,
                                    a1,
                                    b1,
                                    a2,
                                    b2,
                                    px,
                                    py,
                                ))),
                                (|px: int, py: int| px == xx as int && py == row as int
                                    && bary_nonneg(a0, b0, a1, b1, a2, b2, px, py)),
                                (|px: int, py: int| (b0 <= py < row as int && mini(
                                    row_x(a0, b0, a1, b1, py),
                                    row_x(a0, b0, a2, b2, py),
                                ) <= px < maxi(
                                    row_x(a0, b0, a1, b1, py),
                                    row_x(a0, b0, a2, b2, py),
                                ) && bary_nonneg(a0, b0, a1, b1, a2, b2, px, py)) || (py
                                    == row as int && lo <= px < xx + 1 && bary_nonneg(
                                    a0,
                                    b0,
                                    a1,
                                    b1,
                                    a2,
                                    b2,
                                    px,
                                    py,
                                ))),
                                colf,
                            );
                        }
                    } else {
                        proof {
                            lemma_paints_colored_weaken(
                                gmid,
                                *self,
                                (|px: int, py: int| (b0 <= py < row as int && mini(
                                    row_x(a0, b0, a1, b1, py),
                                    row_x(a0, b0, a2, b2, py),
                                ) <= px < maxi(
                                    row_x(a0, b0, a1, b1, py),
                                    row_x(a0, b0, a2, b2, py),
                                ) && bary_nonneg(a0, b0, a1, b1, a2, b2, px, py)) || (py
                                    == row as int && lo <= px < xx && bary_nonneg(
                                    a0,
                                    b0,
                                    a1,
                                    b1,
                                    a2,
                                    b2,
                                    px,
                                    py,
                                ))),
                                colf,
                                (|px: int, py: int| (b0 <= py < row as int && mini(
                                    row_x(a0, b0, a1, b1, py),
                                    row_x(a0, b0, a2, b2, py),
                                ) <= px < maxi(
                                    row_x(a0, b0, a1, b1, py),
                                    row_x(a0, b0, a2, b2, py),
                                ) && bary_nonneg(a0, b0, a1, b1, a2, b2, px, py)) || (py
                                    == row as int && lo <= px < xx + 1 && bary_nonneg(
                                    a0,
                                    b0,
                                    a1,
                                    b1,
                                    a2,
                                    b2,
                                    px,
                                    py,
                                ))),
                                colf,
                            );
                        }
                    }
                    xx = xx + 1;
                }
                proof {
                    lemma_paints_colored_weaken(
                        gmid,
                        *self,
                        (|px: int, py: int| (b0 <= py < row as int && mini(
                            row_x(a0, b0, a1, b1, py),
                            row_x(a0, b0, a2, b2, py),
                        ) <= px < maxi(row_x(a0, b0, a1, b1, py), row_x(a0, b0, a2, b2, py))
                            && bary_nonneg(a0, b0, a1, b1, a2, b2, px, py)) || (py == row as int
                            && lo <= px < xx && bary_nonneg(a0, b0, a1, b1, a2, b2, px, py))),
                        colf,
                        (|px: int, py: int| b0 <= py < row as int + 1 && mini(
                            row_x(a0, b0, a1, b1, py),
                            row_x(a0, b0, a2, b2, py),
                        ) <= px < maxi(row_x(a0, b0, a1, b1, py), row_x(a0, b0, a2, b2, py))
                            && bary_nonneg(a0, b0, a1, b1, a2, b2, px, py)),
                        colf,
                    );
                }
                row = row + 1;
            }
        }
        let ghost lower_start = if b0 != b1 {
            b1 + 1
        } else {
            b0
        };
        proof {
            assert(row as int == lower_start);
        }
        if y1 != y2 {
            while row <= (ray1.y1 as i64)
                invariant
                    gmid.wf(),
                    self.wf(),
                    self.width == gmid.width,
                    self.height == gmid.height,
                    b0 <= b1 < b2,
                    a0 == x0 as int && b0 == y0 as int && a1 == x1 as int && b1 == y1 as int && a2
                        == x2 as int && b2 == y2 as int,
                    colf == (|px: int, py: int| mix_at(c0, c1, c2, a0, b0, a1, b1, a2, b2, px, py)),
                    lower_start == (if b0 != b1 {
                        b1 + 1
                    } else {
                        b0
                    }),
                    ray1.wf() && ray1.x0 as int == a1 && ray1.y0 as int == b1 && ray1.x1 as int
                        == a2 && ray1.y1 as int == b2,
                    ray2.wf() && ray2.x0 as int == a0 && ray2.y0 as int == b0 && ray2.x1 as int
                        == a2 && ray2.y1 as int == b2,
                    1 <= ray1.taken() <= ray1.total() + 1,
                    1 <= ray2.taken() <= ray2.total() + 1,
                    (cx1 as int, cy1 as int) == bres_point(a1, b1, a2, b2, ray1.taken() - 1),
                    (cx2 as int, cy2 as int) == bres_point(a0, b0, a2, b2, ray2.taken() - 1),
                    lower_start <= row <= b2 + 1,
                    cy1 as int <= row as int,
                    cy2 as int <= row as int,
                    cy1 as int == row as int ==> (ray1.taken() - 1 == 0 || bres_point(
                        a1,
                        b1,
                        a2,
                        b2,
                        ray1.taken() - 2,
                    ).1 < row as int),
                    cy2 as int == row as int ==> (ray2.taken() - 1 == 0 || bres_point(
                        a0,
                        b0,
                        a2,
                        b2,
                        ray2.taken() - 2,
                    ).1 < row as int),
                    paints_colored(
                        gmid,
                        *self,
                        (|px: int, py: int| ((b0 != b1 && b0 <= py <= b1 && mini(
                            row_x(a0, b0, a1, b1, py),
                            row_x(a0, b0, a2, b2, py),
                        ) <= px < maxi(row_x(a0, b0, a1, b1, py), row_x(a0, b0, a2, b2, py))) || (
                        lower_start <= py < row as int && mini(
                            row_x(a1, b1, a2, b2, py),
                            row_x(a0, b0, a2, b2, py),
                        ) <= px <= maxi(row_x(a1, b1, a2, b2, py), row_x(a0, b0, a2, b2, py))))
                            && bary_nonneg(a0, b0, a1, b1, a2, b2, px, py)),
                        colf,
                    ),
                decreases b2 + 1 - row,
            {
                let s1 = ray1.seek_row(cx1, cy1, row);
                cx1 = s1.0;
                cy1 = s1.1;
                let s2 = ray2.seek_row(cx2, cy2, row);
                cx2 = s2.0;
                cy2 = s2.1;
                let (lo, hi) = if cx2 < cx1 {
                    (cx2, cx1)
                } else {
                    (cx1, cx2)
                };
                let mut xx: i64 = lo as i64;
                while xx <= (hi as i64)
                    invariant
                        gmid.wf(),
                        self.wf(),
                        self.width == gmid.width,
                        self.height == gmid.height,
                        b0 <= b1 < b2,
                        a0 == x0 as int && b0 == y0 as int && a1 == x1 as int && b1 == y1 as int
                            && a2 == x2 as int && b2 == y2 as int,
                        colf == (|px: int, py: int| mix_at(c0, c1, c2, a0, b0, a1, b1, a2, b2, px, py)),
                        lower_start == (if b0 != b1 {
                            b1 + 1
                        } else {
                            b0
                        }),
                        lower_start <= row <= b2,
                        lo as int == mini(row_x(a1, b1, a2, b2, row as int), row_x(a0, b0, a2, b2, row as int)),
                        hi as int == maxi(row_x(a1, b1, a2, b2, row as int), row_x(a0, b0, a2, b2, row as int)),
                        lo as int <= xx <= hi as int + 1,
                        paints_colored(
                            gmid,
                            *self,
                            (|px: int, py: int| ((b0 != b1 && b0 <= py <= b1 && mini(
                                row_x(a0, b0, a1, b1, py),
                                row_x(a0, b0, a2, b2, py),
                            ) <= px < maxi(row_x(a0, b0, a1, b1, py), row_x(a0, b0, a2, b2, py)))
                                || (lower_start <= py < row as int && mini(
                                row_x(a1, b1, a2, b2, py),
                                row_x(a0, b0, a2, b2, py),
                            ) <= px <= maxi(row_x(a1, b1, a2, b2, py), row_x(a0, b0, a2, b2, py)))
                                || (py == row as int && lo <= px < xx)) && bary_nonneg(
                                a0,
                                b0,
                                a1,
                                b1,
                                a2,
                                b2,
                                px,
                                py,
                            )),
                            colf,
                        ),
                    decreases hi as int + 1 - xx,
                {
                    if crate::bary::point_in_triangle(
                        x0 as i64,
                        y0 as i64,
                        x1 as i64,
                        y1 as i64,
                        x2 as i64,
                        y2 as i64,
                        xx,
                        row,
                    ) {
                        let col = crate::bary::mix_at_point(
                            c0,
                            c1,
                            c2,
                            x0 as i64,
                            y0 as i64,
                            x1 as i64,
                            y1 as i64,
                            x2 as i64,
                            y2 as i64,
                            xx,
                            row,
                        );
                        let ghost prev = *self;
                        self.draw_pixel(xx as i32, row as i32, col);
                        proof {
                            lemma_paints_to_colored(
                                prev,
                                *self,
                                (|px: int, py: int| px == xx as i32 as int && py
                                    == row as i32 as int),
                                col,
                            );
                            lemma_paints_colored_weaken(
                                prev,
                                *self,
                                (|px: int, py: int| px == xx as i32 as int && py
                                    == row as i32 as int),
                                (|px: int, py: int| col),
                                (|px: int, py: int| px == xx as int && py == row as int
                                    && bary_nonneg(a0, b0, a1, b1, a2, b2, px, py)),
                                colf,
                            );
                            lemma_paints_colored_compose(
                                gmid,
                                prev,
                                *self,
                                (|px: int, py: int| ((b0 != b1 && b0 <= py <= b1 && mini(
                                    row_x(a0, b0, a1, b1, py),
                                    row_x(a0, b0, a2, b2, py),
                                ) <= px < maxi(
                                    row_x(a0, b0, a1, b1, py),
                                    row_x(a0, b0, a2, b2, py),
                                )) || (lower_start <= py < row as int && mini(
                                    row_x(a1, b1, a2, b2, py),
                                    row_x(a0, b0, a2, b2, py),
                                ) <= px <= maxi(
                                    row_x(a1, b1, a2, b2, py),
                                    row_x(a0, b0, a2, b2, py),
                                )) || (py == row as int && lo <= px < xx)) && bary_nonneg(
                                    a0,
                                    b0,
                                    a1,
                                    b1,
                                    a2,
                                    b2,
                                    px,
                                    py,
                                )),
                                (|px: int, py: int| px == xx as int && py == row as int
                                    && bary_nonneg(a0, b0, a1, b1, a2, b2, px, py)),
                                (|px: int, py: int| ((b0 != b1 && b0 <= py <= b1 && mini(
                                    row_x(a0, b0, a1, b1, py),
                                    row_x(a0, b0, a2, b2, py),
                                ) <= px < maxi(
                                    row_x(a0, b0, a1, b1, py),
                                    row_x(a0, b0, a2, b2, py),
                                )) || (lower_start <= py < row as int && mini(
                                    row_x(a1, b1, a2, b2, py),
                                    row_x(a0, b0, a2, b2, py),
                                ) <= px <= maxi(
                                    row_x(a1, b1, a2, b2, py),
                                    row_x(a0, b0, a2, b2, py),
                                )) || (py == row as int && lo <= px < xx + 1)) && bary_nonneg(
                                    a0,
                                    b0,
                                    a1,
                                    b1,
                                    a2,
                                    b2,
                                    px,
                                    py,
                                )),
                                colf,
                            );
                        }
                    } else {
                        proof {
                            lemma_paints_colored_weaken(
                                gmid,
                                *self,
                                (|px: int, py: int| ((b0 != b1 && b0 <= py <= b1 && mini(
                                    row_x(a0, b0, a1, b1, py),
                                    row_x(a0, b0, a2, b2, py),
                                ) <= px < maxi(
                                    row_x(a0, b0, a1, b1, py),
                                    row_x(a0, b0, a2, b2, py),
                                )) || (lower_start <= py < row as int && mini(
                                    row_x(a1, b1, a2, b2, py),
                                    row_x(a0, b0, a2, b2, py),
                                ) <= px <= maxi(
                                    row_x(a1, b1, a2, b2, py),
                                    row_x(a0, b0, a2, b2, py),
                                )) || (py == row as int && lo <= px < xx)) && bary_nonneg(
                                    a0,
                                    b0,
                                    a1,
                                    b1,
                                    a2,
                                    b2,
                                    px,
                                    py,
                                )),
                                colf,
                                (|px: int, py: int| ((b0 != b1 && b0 <= py <= b1 && mini(
                                    row_x(a0, b0, a1, b1, py),
                                    row_x(a0, b0, a2, b2, py),
                                ) <= px < maxi(
                                    row_x(a0, b0, a1, b1, py),
                                    row_x(a0, b0, a2, b2, py),
                                )) || (lower_start <= py < row as int && mini(
                                    row_x(a1, b1, a2, b2, py),
                                    row_x(a0, b0, a2, b2, py),
                                ) <= px <= maxi(
                                    row_x(a1, b1, a2, b2, py),
                                    row_x(a0, b0, a2, b2, py),
                                )) || (py == row as int && lo <= px < xx + 1)) && bary_nonneg(
                                    a0,
                                    b0,
                                    a1,
                                    b1,
                                    a2,
                                    b2,
                                    px,
                                    py,
                                )),
                                colf,
                            );
                        }
                    }
                    xx = xx + 1;
                }
                proof {
                    lemma_paints_colored_weaken(
                        gmid,
                        *self,
                        (|px: int, py: int| ((b0 != b1 && b0 <= py <= b1 && mini(
                            row_x(a0, b0, a1, b1, py),
                            row_x(a0, b0, a2, b2, py),
                        ) <= px < maxi(row_x(a0, b0, a1, b1, py), row_x(a0, b0, a2, b2, py))) || (
                        lower_start <= py < row as int && mini(
                            row_x(a1, b1, a2, b2, py),
                            row_x(a0, b0, a2, b2, py),
                        ) <= px <= maxi(row_x(a1, b1, a2, b2, py), row_x(a0, b0, a2, b2, py))) || (
                        py == row as int && lo <= px < xx)) && bary_nonneg(
                            a0,
                            b0,
                            a1,
                            b1,
                            a2,
                            b2,
                            px,
                            py,
                        )),
                        colf,
                        (|px: int, py: int| ((b0 != b1 && b0 <= py <= b1 && mini(
                            row_x(a0, b0, a1, b1, py),
                            row_x(a0, b0, a2, b2, py),
                        ) <= px < maxi(row_x(a0, b0, a1, b1, py), row_x(a0, b0, a2, b2, py))) || (
                        lower_start <= py < row as int + 1 && mini(
                            row_x(a1, b1, a2, b2, py),
                            row_x(a0, b0, a2, b2, py),
                        ) <= px <= maxi(row_x(a1, b1, a2, b2, py), row_x(a0, b0, a2, b2, py))))
                            && bary_nonneg(a0, b0, a1, b1, a2, b2, px, py)),
                        colf,
                    );
                }
                row = row + 1;
            }
        }
        proof {
            if b0 != b1 && b1 != b2 {
                lemma_paints_colored_weaken(
                    gmid,
                    *self,
                    (|px: int, py: int| ((b0 != b1 && b0 <= py <= b1 && mini(
                        row_x(a0, b0, a1, b1, py),
                        row_x(a0, b0, a2, b2, py),
                    ) <= px < maxi(row_x(a0, b0, a1, b1, py), row_x(a0, b0, a2, b2, py))) || (
                    lower_start <= py < row as int && mini(
                        row_x(a1, b1, a2, b2, py),
                        row_x(a0, b0, a2, b2, py),
                    ) <= px <= maxi(row_x(a1, b1, a2, b2, py), row_x(a0, b0, a2, b2, py))))
                        && bary_nonneg(a0, b0, a1, b1, a2, b2, px, py)),
                    colf,
                    cov,
                    colf,
                );
            } else if b0 != b1 {
                lemma_paints_colored_weaken(
                    gmid,
                    *self,
                    (|px: int, py: int| b0 <= py < row as int && mini(
                        row_x(a0, b0, a1, b1, py),
                        row_x(a0, b0, a2, b2, py),
                    ) <= px < maxi(row_x(a0, b0, a1, b1, py), row_x(a0, b0, a2, b2, py))
                        && bary_nonneg(a0, b0, a1, b1, a2, b2, px, py)),
                    colf,
                    cov,
                    colf,
                );
            } else if b1 != b2 {
                lemma_paints_colored_weaken(
                    gmid,
                    *self,
                    (|px: int, py: int| ((b0 != b1 && b0 <= py <= b1 && mini(
                        row_x(a0, b0, a1, b1, py),
                        row_x(a0, b0, a2, b2, py),
                    ) <= px < maxi(row_x(a0, b0, a1, b1, py), row_x(a0, b0, a2, b2, py))) || (
                    lower_start <= py < row as int && mini(
                        row_x(a1, b1, a2, b2, py),
                        row_x(a0, b0, a2, b2, py),
                    ) <= px <= maxi(row_x(a1, b1, a2, b2, py), row_x(a0, b0, a2, b2, py))))
                        && bary_nonneg(a0, b0, a1, b1, a2, b2, px, py)),
                    colf,
                    cov,
                    colf,
                );
            } else {
                lemma_paints_colored_weaken(
                    gmid,
                    *self,
                    (|px: int, py: int| false),
                    colf,
                    cov,
                    colf,
                );
            }
            assert(paints_after_stamp_colored(orig, *self, a2, b2, c2, cov, colf));
        }
    }
}

/// The source pixel that nearest-neighbor copying reads for destination
/// pixel (px, py): row `py·Hs/Hd` and column `px·Ws/Wd`, the row origin
/// taken at `width` pitch from the source view's origin.
pub open spec fn copy_src_pix(src: Renderer, dw: int, dh: int, px: int, py: int) -> u32 {
    src.buf()[src.origin() + (py * src.height / dh) * src.width + px * src.width / dw]
}

/// A scaled index stays below its bound.
proof fn lemma_scale_bound(i: int, n: int, d: int)
    requires
        0 <= i < d,
        1 <= n,
    ensures
        0 <= i * n / d < n,
{
    assert(0 <= i * n && i * n <= (d - 1) * n) by (nonlinear_arith)
        requires
            0 <= i <= d - 1 && 1 <= n,
    ;
    vstd::arithmetic::div_mod::lemma_div_pos_is_pos(i * n, d);
    vstd::arithmetic::div_mod::lemma_fundamental_div_mod(i * n, d);
    vstd::arithmetic::div_mod::lemma_mod_bound(i * n, d);
    let q = i * n / d;
    assert(q < n) by (nonlinear_arith)
        requires
            d * q <= i * n && i * n <= (d - 1) * n && d >= 1 && n >= 1 && q == i * n / d,
    ;
}

impl Renderer {
    /// Copies `source` onto this view with nearest-neighbor resampling,
    /// under the current mode: destination pixel (x, y) takes the source
    /// pixel at row `y·Hs/Hd` and column `x·Ws/Wd`.
    pub fn copy(&mut self, source: &Renderer)
        requires
            old(self).wf(),
            source.origin() + source.height * source.width <= source.buf().len(),
            old(self).width > 0 && old(self).height > 0 ==> source.width > 0 && source.height > 0,
        ensures
            final(self).wf(),
            paints_colored(
                *old(self),
                *final(self),
                (|px: int, py: int| true),
                (|px: int, py: int| copy_src_pix(
                    *source,
                    old(self).width as int,
                    old(self).height as int,
                    px,
                    py,
                )),
            ),
    {
        let ghost orig = *self;
        let ghost colf = (|px: int, py: int| copy_src_pix(
            *source,
            orig.width as int,
            orig.height as int,
            px,
            py,
        ));
        let w = self.width;
        let h = self.height;
        let sw = source.width;
        let sh = source.height;
        let slen = source.buffer.len();
        proof {
            assert(paints_colored(orig, *self, (|px: int, py: int| false), colf));
        }
        let mut yy: u32 = 0;
        while yy < h
            invariant
                orig.wf(),
                self.wf(),
                self.width == orig.width,
                self.height == orig.height,
                w == orig.width && h == orig.height && sw == source.width && sh == source.height,
                source.origin() + source.height * source.width <= source.buf().len(),
                slen == source.buf().len(),
                w > 0 && h > 0 ==> sw > 0 && sh > 0,
                0 <= yy <= h,
                colf == (|px: int, py: int| copy_src_pix(
                    *source,
                    orig.width as int,
                    orig.height as int,
                    px,
                    py,
                )),
                paints_colored(
                    orig,
                    *self,
                    (|px: int, py: int| py < yy),
                    colf,
                ),
            decreases h - yy,
        {
            proof {
                assert(0 <= yy as int * (sh as int) < 0x8000_0000_0000_0000) by (nonlinear_arith)
                    requires
                        0 <= yy < 0x8000_0000 && 0 <= sh <= 0xffff_ffff,
                ;
                if sh > 0 {
                    lemma_scale_bound(yy as int, sh as int, h as int);
                } else {
                    assert(yy as int * (sh as int) == 0) by (nonlinear_arith)
                        requires
                            sh == 0,
                    ;
                    vstd::arithmetic::div_mod::lemma_div_of0(h as int);
                }
            }
            let sy = (((yy as u64) * (sh as u64)) / (h as u64)) as u32;
            proof {
                assert(0 <= sy as int * (sw as int) < 0xffff_ffff_ffff_ffff) by (nonlinear_arith)
                    requires
                        0 <= sy <= 0xffff_ffff && 0 <= sw <= 0xffff_ffff,
                ;
            }
            let row_start = (sy as u64) * (sw as u64);
            let mut xx: u32 = 0;
            while xx < w
                invariant
                    orig.wf(),
                    self.wf(),
                    self.width == orig.width,
                    self.height == orig.height,
                    w == orig.width && h == orig.height && sw == source.width && sh
                        == source.height,
                    source.origin() + source.height * source.width <= source.buf().len(),
                    slen == source.buf().len(),
                    w > 0 ==> sw > 0 && sh > 0,
                    0 <= yy < h,
                    0 <= xx <= w,
                    sy as int == yy as int * sh / (h as int),
                    sw > 0 && sh > 0 ==> sy < sh,
                    row_start == sy as int * sw,
                    colf == (|px: int, py: int| copy_src_pix(
                        *source,
                        orig.width as int,
                        orig.height as int,
                        px,
                        py,
                    )),
                    paints_colored(
                        orig,
                        *self,
                        (|px: int, py: int| py < yy || (py == yy && px < xx)),
                        colf,
                    ),
                decreases w - xx,
            {
                proof {
                    assert(0 <= xx as int * (sw as int) < 0x8000_0000_0000_0000)
                        by (nonlinear_arith)
                        requires
                            0 <= xx < 0x8000_0000 && 0 <= sw <= 0xffff_ffff,
                    ;
                }
                let sx = (((xx as u64) * (sw as u64)) / (w as u64)) as u32;
                proof {
                    lemma_scale_bound(xx as int, sw as int, w as int);
                    assert(sy as int * sw + sx < source.height * source.width) by (nonlinear_arith)
                        requires
                            0 <= sy < source.height && 0 <= sx < source.width && sy as int * sw
                                == sy as int * source.width && sw == source.width,
                    ;
                }
                let idx = source.start + ((row_start + (sx as u64)) as usize);
                let sv = source.buffer[idx];
                let ghost prev = *self;
                self.draw_pixel_unchecked(xx, yy, sv);
                proof {
                    prev.lemma_update_paints(*self, xx as int, yy as int, sv);
                    lemma_paints_to_colored(
                        prev,
                        *self,
                        (|px: int, py: int| px == xx as int && py == yy as int),
                        sv,
                    );
                    lemma_paints_colored_weaken(
                        prev,
                        *self,
                        (|px: int, py: int| px == xx as int && py == yy as int),
                        (|px: int, py: int| sv),
                        (|px: int, py: int| px == xx as int && py == yy as int),
                        colf,
                    );
                    lemma_paints_colored_compose(
                        orig,
                        prev,
                        *self,
                        (|px: int, py: int| py < yy || (py == yy && px < xx)),
                        (|px: int, py: int| px == xx as int && py == yy as int),
                        (|px: int, py: int| py < yy || (py == yy && px < xx + 1)),
                        colf,
                    );
                }
                xx = xx + 1;
            }
            proof {
                lemma_paints_colored_weaken(
                    orig,
                    *self,
                    (|px: int, py: int| py < yy || (py == yy && px < xx)),
                    colf,
                    (|px: int, py: int| py < yy + 1),
                    colf,
                );
            }
            yy = yy + 1;
        }
        proof {
            lemma_paints_colored_weaken(
                orig,
                *self,
                (|px: int, py: int| py < yy),
                colf,
                (|px: int, py: int| true),
                colf,
            );
        }
    }
}

/// Drawing a line in either direction writes the same set of pixels, as
/// long as the traversal of the clipped segment has no ties. (A tie breaks
/// the symmetry: the two directions round it to different rows.)
pub proof fn lemma_draw_line_symmetric(x0: int, y0: int, x1: int, y1: int, w: int, h: int)
    requires
        match spec_box_clip(x0, y0, x1, y1, w, h) {
            Some(c) => crate::ray::no_ties(c.0, c.1, c.2, c.3),
            None => true,
        },
    ensures
        forall|px: int, py: int| #[trigger]
            line_covers(x0, y0, x1, y1, w, h, px, py) <==> #[trigger] line_covers(
                x1,
                y1,
                x0,
                y0,
                w,
                h,
                px,
                py,
            ),
{
    crate::clip::lemma_clip_symmetric(x0, y0, x1, y1, w, h);
    match spec_box_clip(x0, y0, x1, y1, w, h) {
        Some(c) => {
            crate::ray::lemma_on_line_symmetric(c.0, c.1, c.2, c.3);
        },
        None => {
        },
    }
}

/// A painted view changes no pixel outside the painted region, and nothing
/// at all outside the view: the frame of every drawing operation.
pub proof fn lemma_paints_frame(
    prev: Renderer,
    next: Renderer,
    cov: spec_fn(int, int) -> bool,
    color: u32,
    x: int,
    y: int,
)
    requires
        paints(prev, next, cov, color),
        prev.in_view(x, y),
        !cov(x, y),
    ensures
        next.pix(x, y) == prev.pix(x, y),
{
}

impl Renderer {
    /// The binary PPM serialization of the view (for views whose rows are
    /// contiguous, as created by `new`).
    pub fn ppm_data(&self) -> (out: Vec<u8>)
        requires
            self.wf(),
            self.origin() + self.height * self.width <= self.buf().len(),
        ensures
            out@ == crate::ppm::ppm_bytes(
                self.width as int,
                self.height as int,
                self.buf().subrange(
                    self.origin(),
                    self.origin() + self.height * self.width,
                ),
            ),
    {
        let n = self.buffer.len();
        proof {
            assert(0 <= self.height * self.width) by (nonlinear_arith)
                requires
                    self.height >= 0 && self.width >= 0,
            ;
            assert(self.width * self.height == self.height * self.width) by (nonlinear_arith);
        }
        let cnt = (self.height as usize) * (self.width as usize);
        let row = vstd::slice::slice_subrange(self.buffer.as_slice(), self.start, self.start + cnt);
        let pix = vstd::slice::slice_to_vec(row);
        crate::ppm::ppm_data(self.width, self.height, &pix)
    }
}

/// `next` differs from `prev` at most inside the covered region: the view
/// geometry and mode are kept, pixels outside the region are kept, and the
/// store outside the view is kept. (Unlike `paints`, this says nothing
/// about the covered pixels themselves.)
pub open spec fn touches_only(prev: Renderer, next: Renderer, cov: spec_fn(int, int) -> bool) -> bool {
    &&& next.shape_eq(prev)
    &&& next.is_blending() == prev.is_blending()
    &&& forall|x: int, y: int|
        prev.in_view(x, y) && !cov(x, y) ==> #[trigger] next.pix(x, y) == prev.pix(x, y)
    &&& forall|i: int|
        0 <= i < prev.buf().len() && !prev.is_view_idx(i) ==> #[trigger] next.buf()[i]
            == prev.buf()[i]
}

/// Two steps that each touch only the region touch only the region.
pub proof fn lemma_touches_only_chain(
    a: Renderer,
    b: Renderer,
    c: Renderer,
    cov: spec_fn(int, int) -> bool,
)
    requires
        touches_only(a, b, cov),
        touches_only(b, c, cov),
    ensures
        touches_only(a, c, cov),
{
    assert forall|x: int, y: int| a.in_view(x, y) && !cov(x, y) implies #[trigger] c.pix(x, y)
        == a.pix(x, y) by {
        assert(b.pix(x, y) == a.pix(x, y));
    }
}

/// A paint touches only its region, and a smaller region is touched only
/// within any larger one.
pub proof fn lemma_paints_touches_only(
    a: Renderer,
    b: Renderer,
    cov: spec_fn(int, int) -> bool,
    wider: spec_fn(int, int) -> bool,
    color: u32,
)
    requires
        paints(a, b, cov, color),
        forall|x: int, y: int| a.in_view(x, y) && #[trigger] cov(x, y) ==> #[trigger] wider(x, y),
    ensures
        touches_only(a, b, wider),
{
    assert forall|x: int, y: int| a.in_view(x, y) && !wider(x, y) implies #[trigger] b.pix(x, y)
        == a.pix(x, y) by {
        assert(b.pix(x, y) == (if cov(x, y) {
            a.write_pix(a.pix(x, y), color)
        } else {
            a.pix(x, y)
        }));
    }
}


/// With blending off a write just stores the color, so two paints of the
/// same color combine to their union even where they overlap.
pub proof fn lemma_paints_compose_opaque(
    a: Renderer,
    b: Renderer,
    c: Renderer,
    cov1: spec_fn(int, int) -> bool,
    cov2: spec_fn(int, int) -> bool,
    cov: spec_fn(int, int) -> bool,
    color: u32,
)
    requires
        a.wf(),
        !a.is_blending(),
        paints(a, b, cov1, color),
        paints(b, c, cov2, color),
        forall|x: int, y: int|
            a.in_view(x, y) ==> (#[trigger] cov(x, y) <==> #[trigger] cov1(x, y) || #[trigger] cov2(
                x,
                y,
            )),
    ensures
        paints(a, c, cov, color),
{
    assert forall|x: int, y: int| a.in_view(x, y) implies #[trigger] c.pix(x, y) == (if cov(x, y) {
        a.write_pix(a.pix(x, y), color)
    } else {
        a.pix(x, y)
    }) by {
        assert(b.pix(x, y) == (if cov1(x, y) {
            a.write_pix(a.pix(x, y), color)
        } else {
            a.pix(x, y)
        }));
    }
}

/// The glyph cells of the text that precede position (i, gy, gx) of the
/// character / glyph-row / glyph-column sweep.
pub open spec fn text_prefix(
    s: Seq<char>,
    x0: int,
    y0: int,
    scale: int,
    w: int,
    h: int,
    i: int,
    gy: int,
    gx: int,
    px: int,
    py: int,
) -> bool {
    exists|i2: int, gx2: int, gy2: int|
        0 <= i2 < s.len() && 0 <= gx2 < 5 && 0 <= gy2 < 8 && #[trigger] crate::font::glyph_bit(
            s[i2],
            gx2,
            gy2,
        ) && rect_covers(
            x0 + i2 * 6 * scale + gx2 * scale,
            y0 + gy2 * scale,
            scale,
            scale,
            w,
            h,
            px,
            py,
        ) && (i2 < i || (i2 == i && (gy2 < gy || (gy2 == gy && gx2 < gx))))
}


/// One sweep step extends the painted cells by the current cell (when its
/// glyph bit is set).
proof fn lemma_text_prefix_step(
    s: Seq<char>,
    x0: int,
    y0: int,
    scale: int,
    w: int,
    h: int,
    i: int,
    gy: int,
    gx: int,
    px: int,
    py: int,
)
    requires
        0 <= i < s.len(),
        0 <= gy < 8,
        0 <= gx < 5,
    ensures
        text_prefix(s, x0, y0, scale, w, h, i, gy, gx + 1, px, py) <==> (text_prefix(
            s,
            x0,
            y0,
            scale,
            w,
            h,
            i,
            gy,
            gx,
            px,
            py,
        ) || (crate::font::glyph_bit(s[i], gx, gy) && rect_covers(
            x0 + i * 6 * scale + gx * scale,
            y0 + gy * scale,
            scale,
            scale,
            w,
            h,
            px,
            py,
        ))),
{
    if text_prefix(s, x0, y0, scale, w, h, i, gy, gx + 1, px, py) {
        let (i2, gx2, gy2) = choose|i2: int, gx2: int, gy2: int|
            0 <= i2 < s.len() && 0 <= gx2 < 5 && 0 <= gy2 < 8 && #[trigger] crate::font::glyph_bit(
                s[i2],
                gx2,
                gy2,
            ) && rect_covers(
                x0 + i2 * 6 * scale + gx2 * scale,
                y0 + gy2 * scale,
                scale,
                scale,
                w,
                h,
                px,
                py,
            ) && (i2 < i || (i2 == i && (gy2 < gy || (gy2 == gy && gx2 < gx + 1))));
        if i2 < i || (i2 == i && (gy2 < gy || (gy2 == gy && gx2 < gx))) {
            assert(text_prefix(s, x0, y0, scale, w, h, i, gy, gx, px, py));
        }
    }
    if text_prefix(s, x0, y0, scale, w, h, i, gy, gx, px, py) {
        let (i2, gx2, gy2) = choose|i2: int, gx2: int, gy2: int|
            0 <= i2 < s.len() && 0 <= gx2 < 5 && 0 <= gy2 < 8 && #[trigger] crate::font::glyph_bit(
                s[i2],
                gx2,
                gy2,
            ) && rect_covers(
                x0 + i2 * 6 * scale + gx2 * scale,
                y0 + gy2 * scale,
                scale,
                scale,
                w,
                h,
                px,
                py,
            ) && (i2 < i || (i2 == i && (gy2 < gy || (gy2 == gy && gx2 < gx))));
        assert(text_prefix(s, x0, y0, scale, w, h, i, gy, gx + 1, px, py));
    }
    if crate::font::glyph_bit(s[i], gx, gy) && rect_covers(
        x0 + i * 6 * scale + gx * scale,
        y0 + gy * scale,
        scale,
        scale,
        w,
        h,
        px,
        py,
    ) {
        assert(text_prefix(s, x0, y0, scale, w, h, i, gy, gx + 1, px, py));
    }
}

/// Position bookkeeping: a finished glyph row, a finished character, and a
/// finished sweep describe the same painted cells as the next position.
proof fn lemma_text_prefix_bounds(
    s: Seq<char>,
    x0: int,
    y0: int,
    scale: int,
    w: int,
    h: int,
    i: int,
    gy: int,
    px: int,
    py: int,
)
    requires
        0 <= i,
        0 <= gy,
    ensures
        text_prefix(s, x0, y0, scale, w, h, i, gy, 5, px, py) <==> text_prefix(
            s,
            x0,
            y0,
            scale,
            w,
            h,
            i,
            gy + 1,
            0,
            px,
            py,
        ),
        text_prefix(s, x0, y0, scale, w, h, i, 8, 0, px, py) <==> text_prefix(
            s,
            x0,
            y0,
            scale,
            w,
            h,
            i + 1,
            0,
            0,
            px,
            py,
        ),
        text_prefix(s, x0, y0, scale, w, h, s.len() as int, 0, 0, px, py) <==> text_covers(
            s,
            x0,
            y0,
            scale,
            w,
            h,
            px,
            py,
        ),
{
    if text_prefix(s, x0, y0, scale, w, h, i, gy, 5, px, py) {
        assert(text_prefix(s, x0, y0, scale, w, h, i, gy + 1, 0, px, py));
    }
    if text_prefix(s, x0, y0, scale, w, h, i, gy + 1, 0, px, py) {
        assert(text_prefix(s, x0, y0, scale, w, h, i, gy, 5, px, py));
    }
    if text_prefix(s, x0, y0, scale, w, h, i, 8, 0, px, py) {
        assert(text_prefix(s, x0, y0, scale, w, h, i + 1, 0, 0, px, py));
    }
    if text_prefix(s, x0, y0, scale, w, h, i + 1, 0, 0, px, py) {
        assert(text_prefix(s, x0, y0, scale, w, h, i, 8, 0, px, py));
    }
    if text_prefix(s, x0, y0, scale, w, h, s.len() as int, 0, 0, px, py) {
        assert(text_covers(s, x0, y0, scale, w, h, px, py));
    }
    if text_covers(s, x0, y0, scale, w, h, px, py) {
        assert(text_prefix(s, x0, y0, scale, w, h, s.len() as int, 0, 0, px, py));
    }
}

/// Whether (px, py) belongs to some glyph cell of the text drawn at
/// (x0, y0) with the given scale: the i-th character sits `6·i` scaled
/// cells to the right, and each set glyph bit fills a scale × scale
/// rectangle, clamped to the view like any rectangle fill.
pub open spec fn text_covers(
    s: Seq<char>,
    x0: int,
    y0: int,
    scale: int,
    w: int,
    h: int,
    px: int,
    py: int,
) -> bool {
    exists|i: int, gx: int, gy: int|
        0 <= i < s.len() && 0 <= gx < 5 && 0 <= gy < 8 && #[trigger] crate::font::glyph_bit(
            s[i],
            gx,
            gy,
        ) && rect_covers(x0 + i * 6 * scale + gx * scale, y0 + gy * scale, scale, scale, w, h, px, py)
}

impl Renderer {
    /// Draws `text` with the embedded 5 × 8 font, the glyphs scaled by
    /// `glyph_size` and spaced one scaled column apart, under the current
    /// mode. Touches only the glyph cells; every character must have a
    /// glyph.
    pub fn fill_text(&mut self, text: &str, x0: i32, y0: i32, glyph_size: usize, color: u32)
        requires
            old(self).wf(),
            forall|i: int|
                0 <= i < text@.len() ==> #[trigger] crate::font::glyph_bits(text@[i]) is Some,
            text@.len() * 6 * glyph_size <= 0x7fff_ffff,
            x0 + text@.len() * 6 * glyph_size <= 0x7fff_ffff,
            8 * glyph_size <= 0x7fff_ffff,
            y0 + 8 * glyph_size <= 0x7fff_ffff,
        ensures
            final(self).wf(),
            touches_only(
                *old(self),
                *final(self),
                (|px: int, py: int| text_covers(
                    text@,
                    x0 as int,
                    y0 as int,
                    glyph_size as int,
                    old(self).width as int,
                    old(self).height as int,
                    px,
                    py,
                )),
            ),
            !old(self).is_blending() ==> paints(
                *old(self),
                *final(self),
                (|px: int, py: int| text_covers(
                    text@,
                    x0 as int,
                    y0 as int,
                    glyph_size as int,
                    old(self).width as int,
                    old(self).height as int,
                    px,
                    py,
                )),
                color,
            ),
    {
        let ghost orig = *self;
        let ghost cov = (|px: int, py: int| text_covers(
            text@,
            x0 as int,
            y0 as int,
            glyph_size as int,
            orig.width as int,
            orig.height as int,
            px,
            py,
        ));
        let n = text.unicode_len();
        proof {
            if !orig.is_blending() {
                assert forall|px: int, py: int| orig.in_view(px, py) implies !text_prefix(
                    text@,
                    x0 as int,
                    y0 as int,
                    glyph_size as int,
                    orig.width as int,
                    orig.height as int,
                    0,
                    0,
                    0,
                    px,
                    py,
                ) by {}
                assert(paints(
                    orig,
                    *self,
                    (|px: int, py: int| text_prefix(
                        text@,
                        x0 as int,
                        y0 as int,
                        glyph_size as int,
                        orig.width as int,
                        orig.height as int,
                        0, 0, 0,
                        px,
                        py,
                    )),
                    color,
                ));
            }
        }
        let mut i: usize = 0;
        while i < n
            invariant
                orig.wf(),
                self.wf(),
                self.width == orig.width,
                self.height == orig.height,
                n == text@.len(),
                0 <= i <= n,
                forall|j: int|
                    0 <= j < text@.len() ==> #[trigger] crate::font::glyph_bits(text@[j]) is Some,
                text@.len() * 6 * glyph_size <= 0x7fff_ffff,
                x0 + text@.len() * 6 * glyph_size <= 0x7fff_ffff,
                8 * glyph_size <= 0x7fff_ffff,
                y0 + 8 * glyph_size <= 0x7fff_ffff,
                cov == (|px: int, py: int| text_covers(
                    text@,
                    x0 as int,
                    y0 as int,
                    glyph_size as int,
                    orig.width as int,
                    orig.height as int,
                    px,
                    py,
                )),
                touches_only(orig, *self, cov),
                !orig.is_blending() ==> paints(
                    orig,
                    *self,
                    (|px: int, py: int| text_prefix(
                    text@,
                    x0 as int,
                    y0 as int,
                    glyph_size as int,
                    orig.width as int,
                    orig.height as int,
                    i as int, 0, 0,
                    px,
                    py,
                )),
                    color,
                ),
            decreases n - i,
        {
            let ch = text.get_char(i);
            let looked = crate::font::glyph_lookup(ch);
            if let Some(bits) = looked {
                proof {
                    assert(0 <= glyph_size * 6 * i && glyph_size * 6 * i == i * 6 * glyph_size
                        && glyph_size * 6 * i <= text@.len() * 6 * glyph_size && glyph_size * 6
                        <= text@.len() * 6 * glyph_size && glyph_size * 5 <= glyph_size * 6)
                        by (nonlinear_arith)
                        requires
                            0 <= i < text@.len() && glyph_size >= 0,
                    ;
                }
                let off: usize = glyph_size * 6 * i;
                let xbase: i32 = x0 + (off as i32);
                let mut gy: u32 = 0;
                while gy < 8
                    invariant
                        orig.wf(),
                        self.wf(),
                        self.width == orig.width,
                        self.height == orig.height,
                        n == text@.len(),
                        0 <= i < n,
                        0 <= gy <= 8,
                        bits == crate::font::glyph_bits(text@[i as int])->Some_0,
                        crate::font::glyph_bits(text@[i as int]) is Some,
                        xbase as int == x0 + i * 6 * glyph_size,
                        text@.len() * 6 * glyph_size <= 0x7fff_ffff,
                        x0 + text@.len() * 6 * glyph_size <= 0x7fff_ffff,
                        8 * glyph_size <= 0x7fff_ffff,
                        y0 + 8 * glyph_size <= 0x7fff_ffff,
                        0 <= i * 6 * glyph_size <= text@.len() * 6 * glyph_size,
                        cov == (|px: int, py: int| text_covers(
                            text@,
                            x0 as int,
                            y0 as int,
                            glyph_size as int,
                            orig.width as int,
                            orig.height as int,
                            px,
                            py,
                        )),
                        touches_only(orig, *self, cov),
                        !orig.is_blending() ==> paints(
                            orig,
                            *self,
                            (|px: int, py: int| text_prefix(
                    text@,
                    x0 as int,
                    y0 as int,
                    glyph_size as int,
                    orig.width as int,
                    orig.height as int,
                    i as int, gy as int, 0,
                    px,
                    py,
                )),
                            color,
                        ),
                    decreases 8 - gy,
                {
                    let mut gx: u32 = 0;
                    while gx < 5
                        invariant
                            orig.wf(),
                            self.wf(),
                            self.width == orig.width,
                            self.height == orig.height,
                            n == text@.len(),
                            0 <= i < n,
                            0 <= gy < 8,
                            0 <= gx <= 5,
                            bits == crate::font::glyph_bits(text@[i as int])->Some_0,
                            crate::font::glyph_bits(text@[i as int]) is Some,
                            xbase as int == x0 + i * 6 * glyph_size,
                            text@.len() * 6 * glyph_size <= 0x7fff_ffff,
                            x0 + text@.len() * 6 * glyph_size <= 0x7fff_ffff,
                            8 * glyph_size <= 0x7fff_ffff,
                            y0 + 8 * glyph_size <= 0x7fff_ffff,
                            0 <= i * 6 * glyph_size <= text@.len() * 6 * glyph_size,
                            cov == (|px: int, py: int| text_covers(
                                text@,
                                x0 as int,
                                y0 as int,
                                glyph_size as int,
                                orig.width as int,
                                orig.height as int,
                                px,
                                py,
                            )),
                            touches_only(orig, *self, cov),
                            !orig.is_blending() ==> paints(
                                orig,
                                *self,
                                (|px: int, py: int| text_prefix(
                    text@,
                    x0 as int,
                    y0 as int,
                    glyph_size as int,
                    orig.width as int,
                    orig.height as int,
                    i as int, gy as int, gx as int,
                    px,
                    py,
                )),
                                color,
                            ),
                        decreases 5 - gx,
                    {
                        if (bits >> (gy * 5 + gx) as u64) & 1 == 1 {
                            proof {
                                assert(0 <= glyph_size * gx && glyph_size * gx == gx * glyph_size
                                    && gx * glyph_size <= 5 * glyph_size && 5 * glyph_size
                                    <= glyph_size * 6 && 0 <= glyph_size * gy && glyph_size * gy
                                    == gy * glyph_size && gy * glyph_size <= 8 * glyph_size && i
                                    * 6 * glyph_size + gx * glyph_size + glyph_size <= text@.len()
                                    * 6 * glyph_size) by (nonlinear_arith)
                                    requires
                                        0 <= gx < 5 && 0 <= gy < 8 && glyph_size >= 0 && 0 <= i
                                            < text@.len(),
                                ;
                            }
                            let cx = xbase + ((glyph_size * (gx as usize)) as i32);
                            let cy = y0 + ((glyph_size * (gy as usize)) as i32);
                            let ghost prev = *self;
                            self.fill_rect(cx, cy, glyph_size as i32, glyph_size as i32, color);
                            proof {
                                assert(crate::font::glyph_bit(
                                    text@[i as int],
                                    gx as int,
                                    gy as int,
                                ));
                                lemma_paints_touches_only(
                                    prev,
                                    *self,
                                    (|px: int, py: int| rect_covers(
                                        cx as int,
                                        cy as int,
                                        glyph_size as int,
                                        glyph_size as int,
                                        prev.width as int,
                                        prev.height as int,
                                        px,
                                        py,
                                    )),
                                    cov,
                                    color,
                                );
                                lemma_touches_only_chain(orig, prev, *self, cov);
                                if !orig.is_blending() {
                                    lemma_paints_compose_opaque(
                                        orig,
                                        prev,
                                        *self,
                                        (|px: int, py: int| text_prefix(
                                            text@,
                                            x0 as int,
                                            y0 as int,
                                            glyph_size as int,
                                            orig.width as int,
                                            orig.height as int,
                                            i as int, gy as int, gx as int,
                                            px,
                                            py,
                                        )),
                                        (|px: int, py: int| rect_covers(
                                            cx as int,
                                            cy as int,
                                            glyph_size as int,
                                            glyph_size as int,
                                            prev.width as int,
                                            prev.height as int,
                                            px,
                                            py,
                                        )),
                                        (|px: int, py: int| text_prefix(
                                            text@,
                                            x0 as int,
                                            y0 as int,
                                            glyph_size as int,
                                            orig.width as int,
                                            orig.height as int,
                                            i as int,
                                            gy as int,
                                            gx as int,
                                            px,
                                            py,
                                        ) || rect_covers(
                                            cx as int,
                                            cy as int,
                                            glyph_size as int,
                                            glyph_size as int,
                                            prev.width as int,
                                            prev.height as int,
                                            px,
                                            py,
                                        )),
                                        color,
                                    );
                                    assert forall|px: int, py: int| orig.in_view(px, py) implies ((
                                    text_prefix(
                                        text@,
                                        x0 as int,
                                        y0 as int,
                                        glyph_size as int,
                                        orig.width as int,
                                        orig.height as int,
                                        i as int,
                                        gy as int,
                                        gx as int,
                                        px,
                                        py,
                                    ) || rect_covers(
                                        cx as int,
                                        cy as int,
                                        glyph_size as int,
                                        glyph_size as int,
                                        prev.width as int,
                                        prev.height as int,
                                        px,
                                        py,
                                    )) <==> text_prefix(
                                        text@,
                                        x0 as int,
                                        y0 as int,
                                        glyph_size as int,
                                        orig.width as int,
                                        orig.height as int,
                                        i as int,
                                        gy as int,
                                        gx as int + 1,
                                        px,
                                        py,
                                    )) by {
                                        lemma_text_prefix_step(
                                            text@,
                                            x0 as int,
                                            y0 as int,
                                            glyph_size as int,
                                            orig.width as int,
                                            orig.height as int,
                                            i as int,
                                            gy as int,
                                            gx as int,
                                            px,
                                            py,
                                        );
                                    }
                                    lemma_paints_weaken(
                                        orig,
                                        *self,
                                        (|px: int, py: int| text_prefix(
                                            text@,
                                            x0 as int,
                                            y0 as int,
                                            glyph_size as int,
                                            orig.width as int,
                                            orig.height as int,
                                            i as int,
                                            gy as int,
                                            gx as int,
                                            px,
                                            py,
                                        ) || rect_covers(
                                            cx as int,
                                            cy as int,
                                            glyph_size as int,
                                            glyph_size as int,
                                            prev.width as int,
                                            prev.height as int,
                                            px,
                                            py,
                                        )),
                                        (|px: int, py: int| text_prefix(
                                            text@,
                                            x0 as int,
                                            y0 as int,
                                            glyph_size as int,
                                            orig.width as int,
                                            orig.height as int,
                                            i as int, gy as int, gx as int + 1,
                                            px,
                                            py,
                                        )),
                                        color,
                                    );
                                }
                            }
                        } else {
                            proof {
                                if !orig.is_blending() {
                                    assert forall|px: int, py: int| orig.in_view(px, py) implies (
                                    text_prefix(
                                        text@,
                                        x0 as int,
                                        y0 as int,
                                        glyph_size as int,
                                        orig.width as int,
                                        orig.height as int,
                                        i as int,
                                        gy as int,
                                        gx as int,
                                        px,
                                        py,
                                    ) <==> text_prefix(
                                        text@,
                                        x0 as int,
                                        y0 as int,
                                        glyph_size as int,
                                        orig.width as int,
                                        orig.height as int,
                                        i as int,
                                        gy as int,
                                        gx as int + 1,
                                        px,
                                        py,
                                    )) by {
                                        lemma_text_prefix_step(
                                            text@,
                                            x0 as int,
                                            y0 as int,
                                            glyph_size as int,
                                            orig.width as int,
                                            orig.height as int,
                                            i as int,
                                            gy as int,
                                            gx as int,
                                            px,
                                            py,
                                        );
                                    }
                                    lemma_paints_weaken(
                                        orig,
                                        *self,
                                        (|px: int, py: int| text_prefix(
                                            text@,
                                            x0 as int,
                                            y0 as int,
                                            glyph_size as int,
                                            orig.width as int,
                                            orig.height as int,
                                            i as int, gy as int, gx as int,
                                            px,
                                            py,
                                        )),
                                        (|px: int, py: int| text_prefix(
                                            text@,
                                            x0 as int,
                                            y0 as int,
                                            glyph_size as int,
                                            orig.width as int,
                                            orig.height as int,
                                            i as int, gy as int, gx as int + 1,
                                            px,
                                            py,
                                        )),
                                        color,
                                    );
                                }
                            }
                        }
                        gx = gx + 1;
                    }
                    proof {
                        if !orig.is_blending() {
                            assert forall|px: int, py: int| orig.in_view(px, py) implies (text_prefix(
                                text@,
                                x0 as int,
                                y0 as int,
                                glyph_size as int,
                                orig.width as int,
                                orig.height as int,
                                i as int, gy as int, 5,
                                px,
                                py,
                            ) <==> text_prefix(
                                text@,
                                x0 as int,
                                y0 as int,
                                glyph_size as int,
                                orig.width as int,
                                orig.height as int,
                                i as int, gy as int + 1, 0,
                                px,
                                py,
                            )) by {
                                lemma_text_prefix_bounds(
                                    text@,
                                    x0 as int,
                                    y0 as int,
                                    glyph_size as int,
                                    orig.width as int,
                                    orig.height as int,
                                    i as int,
                                    gy as int,
                                    px,
                                    py,
                                );
                            }
                            lemma_paints_weaken(
                                orig,
                                *self,
                                (|px: int, py: int| text_prefix(
                            text@,
                            x0 as int,
                            y0 as int,
                            glyph_size as int,
                            orig.width as int,
                            orig.height as int,
                            i as int, gy as int, 5,
                            px,
                            py,
                        )),
                                (|px: int, py: int| text_prefix(
                            text@,
                            x0 as int,
                            y0 as int,
                            glyph_size as int,
                            orig.width as int,
                            orig.height as int,
                            i as int, gy as int + 1, 0,
                            px,
                            py,
                        )),
                                color,
                            );
                        }
                    }
                    gy = gy + 1;
                }
            } else {
                proof {
                    assert(false);
                }
            }
            proof {
                if !orig.is_blending() {
                    assert forall|px: int, py: int| orig.in_view(px, py) implies (text_prefix(
                        text@,
                        x0 as int,
                        y0 as int,
                        glyph_size as int,
                        orig.width as int,
                        orig.height as int,
                        i as int, 8, 0,
                        px,
                        py,
                    ) <==> text_prefix(
                        text@,
                        x0 as int,
                        y0 as int,
                        glyph_size as int,
                        orig.width as int,
                        orig.height as int,
                        i as int + 1, 0, 0,
                        px,
                        py,
                    )) by {
                        lemma_text_prefix_bounds(
                            text@,
                            x0 as int,
                            y0 as int,
                            glyph_size as int,
                            orig.width as int,
                            orig.height as int,
                            i as int,
                            0,
                            px,
                            py,
                        );
                    }
                    lemma_paints_weaken(
                        orig,
                        *self,
                        (|px: int, py: int| text_prefix(
                    text@,
                    x0 as int,
                    y0 as int,
                    glyph_size as int,
                    orig.width as int,
                    orig.height as int,
                    i as int, 8, 0,
                    px,
                    py,
                )),
                        (|px: int, py: int| text_prefix(
                    text@,
                    x0 as int,
                    y0 as int,
                    glyph_size as int,
                    orig.width as int,
                    orig.height as int,
                    i as int + 1, 0, 0,
                    px,
                    py,
                )),
                        color,
                    );
                }
            }
            i = i + 1;
        }
        proof {
            if !orig.is_blending() {
                assert forall|px: int, py: int| orig.in_view(px, py) implies (text_prefix(
                    text@,
                    x0 as int,
                    y0 as int,
                    glyph_size as int,
                    orig.width as int,
                    orig.height as int,
                    i as int,
                    0,
                    0,
                    px,
                    py,
                ) <==> text_covers(
                    text@,
                    x0 as int,
                    y0 as int,
                    glyph_size as int,
                    orig.width as int,
                    orig.height as int,
                    px,
                    py,
                )) by {
                    lemma_text_prefix_bounds(
                        text@,
                        x0 as int,
                        y0 as int,
                        glyph_size as int,
                        orig.width as int,
                        orig.height as int,
                        i as int,
                        0,
                        px,
                        py,
                    );
                }
                lemma_paints_weaken(
                    orig,
                    *self,
                    (|px: int, py: int| text_prefix(
                        text@,
                        x0 as int,
                        y0 as int,
                        glyph_size as int,
                        orig.width as int,
                        orig.height as int,
                        i as int,
                        0,
                        0,
                        px,
                        py,
                    )),
                    cov,
                    color,
                );
            }
        }
    }
}

/// Every pixel the color-interpolating triangle fill paints has all
/// barycentric coordinates nonnegative: its painted set is the integer
/// lattice of the triangle, restricted to the scan-line spans.
pub proof fn lemma_mix_covers_in_lattice(
    x0: int,
    y0: int,
    x1: int,
    y1: int,
    x2: int,
    y2: int,
    px: int,
    py: int,
)
    requires
        tri_mix_covers(x0, y0, x1, y1, x2, y2, px, py),
    ensures
        bary_nonneg(x0, y0, x1, y1, x2, y2, px, py),
{
}

} // verus!

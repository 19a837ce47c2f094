//! An owning canvas: a width × height pixel store with opaque (replace)
//! writes only, a clipped line drawer and a filled-circle scan converter.

use vstd::prelude::*;

use crate::clip::box_clip;
use crate::ray::{Ray, on_line, line_k, line_total, bres_point, lemma_on_line_endpoint,
    lemma_on_line_at};
use crate::renderer::{maxi, clampi, line_covers};
use crate::circle::{absi, circle_y, circle_d, circle_active, lemma_circle_props,
    lemma_circle_y_step, lemma_circle_y_mono};
use crate::ppm::{ppm_bytes, ppm_data};

verus! {

#[allow(non_camel_case_types)]
pub type u31 = u32;

pub struct Canvas {
    pub width: u31,
    pub height: u31,
    pub buffer: Vec<u32>,
}

/// The pixel offsets the canvas circle fill writes in its first n octant
/// steps: for each step j, the row pairs ±j with half width
/// `circle_y(r, j)` and ±`circle_y(r, j)` with half width j.
pub open spec fn canvas_circle_partial(r: int, cx: int, cy: int, n: int, px: int, py: int) -> bool {
    exists|j: int|
        0 <= j < n && ((absi(py - cy) == j && absi(px - cx) <= #[trigger] circle_y(r, j)) || (absi(
            py - cy,
        ) == circle_y(r, j) && absi(px - cx) <= j))
}

/// The pixel offsets the whole canvas circle fill writes: those of every
/// octant step still in the octant.
pub open spec fn canvas_circle_covers(r: int, cx: int, cy: int, px: int, py: int) -> bool {
    exists|n: int|
        0 <= n && #[trigger] circle_active(r, n) && ((absi(py - cy) == n && absi(px - cx)
            <= circle_y(r, n)) || (absi(py - cy) == circle_y(r, n) && absi(px - cx) <= n))
}

impl Canvas {
    /// The pixel store.
    pub open spec fn buf(self) -> Seq<u32> {
        self.buffer@
    }

    /// Index of pixel (x, y) in the store.
    pub open spec fn idx(self, x: int, y: int) -> int {
        y * self.width + x
    }

    /// The pixel at (x, y).
    pub open spec fn pix(self, x: int, y: int) -> u32 {
        self.buf()[self.idx(x, y)]
    }

    /// Whether (x, y) lies on the canvas.
    pub open spec fn in_view(self, x: int, y: int) -> bool {
        0 <= x < self.width && 0 <= y < self.height
    }

    /// The store holds exactly width × height pixels, within the signed
    /// 32-bit coordinate range.
    pub open spec fn wf(self) -> bool {
        &&& self.width * self.height == self.buf().len()
        &&& self.width <= 0x7fff_ffff
        &&& self.height <= 0x7fff_ffff
    }

    /// A pixel's index stays inside the store and is recoverable.
    pub proof fn lemma_idx_view(self, x: int, y: int)
        requires
            self.wf(),
            self.in_view(x, y),
        ensures
            0 <= self.idx(x, y) < self.buf().len(),
            (self.idx(x, y)) % (self.width as int) == x,
            (self.idx(x, y)) / (self.width as int) == y,
    {
        let w = self.width as int;
        assert(y * w + x < self.height * w && 0 <= y * w && (y * w + x) % w == x && (y * w + x) / w
            == y) by (nonlinear_arith)
            requires
                0 <= y <= self.height - 1 && 0 <= x < w,
        ;
        assert(self.height * self.width == self.width * self.height) by (nonlinear_arith);
    }

    /// Distinct coordinates address distinct store elements.
    pub proof fn lemma_idx_injective(self, x0: int, y0: int, x1: int, y1: int)
        requires
            self.wf(),
            self.in_view(x0, y0),
            self.in_view(x1, y1),
            self.idx(x0, y0) == self.idx(x1, y1),
        ensures
            x0 == x1 && y0 == y1,
    {
        self.lemma_idx_view(x0, y0);
        self.lemma_idx_view(x1, y1);
    }
}

/// `next` is `prev` with exactly the covered pixels replaced by `color`.
pub open spec fn cpaints(
    prev: Canvas,
    next: Canvas,
    cov: spec_fn(int, int) -> bool,
    color: u32,
) -> bool {
    &&& next.width == prev.width
    &&& next.height == prev.height
    &&& next.buf().len() == prev.buf().len()
    &&& forall|x: int, y: int|
        prev.in_view(x, y) ==> #[trigger] next.pix(x, y) == (if cov(x, y) {
            color
        } else {
            prev.pix(x, y)
        })
}

/// Replacing pixels is idempotent, so two paints of the same color combine
/// to their union even where they overlap.
pub proof fn lemma_cpaints_compose(
    a: Canvas,
    b: Canvas,
    c: Canvas,
    cov1: spec_fn(int, int) -> bool,
    cov2: spec_fn(int, int) -> bool,
    cov: spec_fn(int, int) -> bool,
    color: u32,
)
    requires
        a.wf(),
        cpaints(a, b, cov1, color),
        cpaints(b, c, cov2, color),
        forall|x: int, y: int|
            a.in_view(x, y) ==> (#[trigger] cov(x, y) <==> #[trigger] cov1(x, y) || #[trigger] cov2(
                x,
                y,
            )),
    ensures
        cpaints(a, c, cov, color),
{
    assert forall|x: int, y: int| a.in_view(x, y) implies #[trigger] c.pix(x, y) == (if cov(x, y) {
        color
    } else {
        a.pix(x, y)
    }) by {
        assert(b.pix(x, y) == (if cov1(x, y) {
            color
        } else {
            a.pix(x, y)
        }));
    }
}

/// A paint with a pointwise equal region is the same paint.
pub proof fn lemma_cpaints_weaken(
    a: Canvas,
    b: Canvas,
    cov1: spec_fn(int, int) -> bool,
    cov2: spec_fn(int, int) -> bool,
    color: u32,
)
    requires
        cpaints(a, b, cov1, color),
        forall|x: int, y: int|
            a.in_view(x, y) ==> (#[trigger] cov1(x, y) <==> #[trigger] cov2(x, y)),
    ensures
        cpaints(a, b, cov2, color),
{
    assert forall|x: int, y: int| a.in_view(x, y) implies #[trigger] b.pix(x, y) == (if cov2(x, y) {
        color
    } else {
        a.pix(x, y)
    }) by {
        assert(b.pix(x, y) == (if cov1(x, y) {
            color
        } else {
            a.pix(x, y)
        }));
    }
}

impl Canvas {
    /// Creates a canvas of zeroed pixels.
    pub fn new(width: u31, height: u31) -> (r: Canvas)
        requires
            width * height <= 0xffff_ffff,
            width <= 0x7fff_ffff,
            height <= 0x7fff_ffff,
        ensures
            r.wf(),
            r.width == width,
            r.height == height,
            forall|x: int, y: int| r.in_view(x, y) ==> #[trigger] r.pix(x, y) == 0,
    {
        let buffer = vec![0u32; (width * height) as usize];
        let r = Canvas { width, height, buffer };
        proof {
            assert forall|x: int, y: int| r.in_view(x, y) implies #[trigger] r.pix(x, y) == 0 by {
                r.lemma_idx_view(x, y);
            }
        }
        r
    }

    /// The pixel store.
    pub fn get_buffer(&self) -> (r: &Vec<u32>)
        ensures
            r@ == self.buf(),
    {
        &self.buffer
    }

    /// Replaces one pixel, without bounds checks.
    fn draw_pixel_unchecked(&mut self, x: u31, y: u31, color: u32)
        requires
            old(self).wf(),
            x < old(self).width,
            y < old(self).height,
        ensures
            final(self).wf(),
            final(self).width == old(self).width,
            final(self).height == old(self).height,
            final(self).buf() == old(self).buf().update(
                old(self).idx(x as int, y as int),
                color,
            ),
    {
        let n = self.buffer.len();
        proof {
            self.lemma_idx_view(x as int, y as int);
        }
        let i = (y as usize) * (self.width as usize) + (x as usize);
        self.buffer[i] = color;
    }

    /// A single replaced pixel paints exactly that pixel.
    proof fn lemma_update_cpaints(self, next: Canvas, x: int, y: int, color: u32)
        requires
            self.wf(),
            self.in_view(x, y),
            next.width == self.width,
            next.height == self.height,
            next.buf() == self.buf().update(self.idx(x, y), color),
        ensures
            cpaints(self, next, (|px: int, py: int| px == x && py == y), color),
    {
        self.lemma_idx_view(x, y);
        assert forall|px: int, py: int| self.in_view(px, py) implies #[trigger] next.pix(px, py)
            == (if px == x && py == y {
            color
        } else {
            self.pix(px, py)
        }) by {
            self.lemma_idx_view(px, py);
            if !(px == x && py == y) {
                assert(self.idx(px, py) != self.idx(x, y)) by {
                    if self.idx(px, py) == self.idx(x, y) {
                        self.lemma_idx_injective(px, py, x, y);
                    }
                }
            }
        }
    }

    /// Replaces one pixel; coordinates outside the canvas are silently
    /// clipped.
    fn draw_pixel(&mut self, x: i32, y: i32, color: u32)
        requires
            old(self).wf(),
        ensures
            final(self).wf(),
            cpaints(*old(self), *final(self), (|px: int, py: int| px == x && py == y), color),
    {
        if 0 <= x && 0 <= y && (x as u32) < self.width && (y as u32) < self.height {
            let ghost prev = *self;
            self.draw_pixel_unchecked(x as u32, y as u32, color);
            proof {
                prev.lemma_update_cpaints(*self, x as int, y as int, color);
            }
        }
    }

    /// Replaces the pixels of the run between x_lo and x_hi on row `y`,
    /// one checked pixel at a time.
    fn span_row(&mut self, x_lo: i64, x_hi: i64, y: i64, color: u32)
        requires
            old(self).wf(),
            -0x1_0000_0000_0000 <= x_lo,
            x_hi <= 0x1_0000_0000_0000,
            -0x1_0000_0000_0000 <= y <= 0x1_0000_0000_0000,
        ensures
            final(self).wf(),
            cpaints(
                *old(self),
                *final(self),
                (|px: int, py: int| py == y as int && x_lo as int <= px <= x_hi as int),
                color,
            ),
    {
        let ghost orig = *self;
        let mut xx = x_lo;
        while xx <= x_hi
            invariant
                orig.wf(),
                self.wf(),
                self.width == orig.width,
                self.height == orig.height,
                x_lo <= xx <= x_hi + 1 || xx == x_lo,
                -0x1_0000_0000_0000 <= x_lo,
                x_hi <= 0x1_0000_0000_0000,
                -0x1_0000_0000_0000 <= y <= 0x1_0000_0000_0000,
                cpaints(
                    orig,
                    *self,
                    (|px: int, py: int| py == y as int && x_lo as int <= px < xx as int),
                    color,
                ),
            decreases x_hi + 1 - xx,
        {
            let ghost prev = *self;
            if 0 <= xx && xx < (self.width as i64) && 0 <= y && y < (self.height as i64) {
                self.draw_pixel_unchecked(xx as u32, y as u32, color);
                proof {
                    prev.lemma_update_cpaints(*self, xx as int, y as int, color);
                }
            }
            proof {
                lemma_cpaints_compose(
                    orig,
                    prev,
                    *self,
                    (|px: int, py: int| py == y as int && x_lo as int <= px < xx as int),
                    (|px: int, py: int| px == xx as int && py == y as int),
                    (|px: int, py: int| py == y as int && x_lo as int <= px < xx as int + 1),
                    color,
                );
            }
            xx = xx + 1;
        }
        proof {
            lemma_cpaints_weaken(
                orig,
                *self,
                (|px: int, py: int| py == y as int && x_lo as int <= px < xx as int),
                (|px: int, py: int| py == y as int && x_lo as int <= px <= x_hi as int),
                color,
            );
        }
    }

    /// Fills every pixel with `color`.
    pub fn fill(&mut self, color: u32)
        requires
            old(self).wf(),
        ensures
            final(self).wf(),
            cpaints(*old(self), *final(self), (|px: int, py: int| true), color),
    {
        let ghost orig = *self;
        let h = self.height;
        let w = self.width;
        let mut yy: u32 = 0;
        while yy < h
            invariant
                orig.wf(),
                self.wf(),
                self.width == orig.width && self.width == w,
                self.height == orig.height && self.height == h,
                0 <= yy <= h,
                cpaints(orig, *self, (|px: int, py: int| py < yy), color),
            decreases h - yy,
        {
            let ghost prev = *self;
            self.span_row(0, (w as i64) - 1, yy as i64, color);
            proof {
                lemma_cpaints_compose(
                    orig,
                    prev,
                    *self,
                    (|px: int, py: int| py < yy),
                    (|px: int, py: int| py == yy as int && 0 <= px <= w as int - 1),
                    (|px: int, py: int| py < yy + 1),
                    color,
                );
            }
            yy = yy + 1;
        }
        proof {
            lemma_cpaints_weaken(
                orig,
                *self,
                (|px: int, py: int| py < yy),
                (|px: int, py: int| true),
                color,
            );
        }
    }

    /// Fills the rectangle at (x0, y0), `w` pixels wide and `h` tall,
    /// clipped to the canvas.
    pub fn fill_rect(&mut self, x0: i32, y0: i32, w: u31, h: u31, color: u32)
        requires
            old(self).wf(),
        ensures
            final(self).wf(),
            cpaints(
                *old(self),
                *final(self),
                (|px: int, py: int| maxi(x0 as int, 0) <= px < clampi(
                    x0 + w,
                    0,
                    old(self).width as int,
                ) && maxi(y0 as int, 0) <= py < clampi(y0 + h, 0, old(self).height as int)),
                color,
            ),
    {
        let ghost orig = *self;
        let ghost cov = (|px: int, py: int| maxi(x0 as int, 0) <= px < clampi(
            x0 + w,
            0,
            orig.width as int,
        ) && maxi(y0 as int, 0) <= py < clampi(y0 + h, 0, orig.height as int));
        let xn: i64 = {
            let v = (x0 as i64) + (w as i64);
            if v < 0 {
                0
            } else if v > (self.width as i64) {
                self.width as i64
            } else {
                v
            }
        };
        let yn: i64 = {
            let v = (y0 as i64) + (h as i64);
            if v < 0 {
                0
            } else if v > (self.height as i64) {
                self.height as i64
            } else {
                v
            }
        };
        let xs: i64 = if x0 < 0 {
            0
        } else {
            x0 as i64
        };
        let ys: i64 = if y0 < 0 {
            0
        } else {
            y0 as i64
        };
        let mut yy = ys;
        while yy < yn
            invariant
                orig.wf(),
                self.wf(),
                self.width == orig.width,
                self.height == orig.height,
                xs == maxi(x0 as int, 0),
                ys == maxi(y0 as int, 0),
                xn == clampi(x0 + w, 0, orig.width as int),
                yn == clampi(y0 + h, 0, orig.height as int),
                ys <= yy <= yn || yy == ys,
                0 <= xs && xn <= orig.width,
                cpaints(
                    orig,
                    *self,
                    (|px: int, py: int| xs as int <= px < xn as int && ys as int <= py < yy as int),
                    color,
                ),
            decreases yn - yy,
        {
            let ghost prev = *self;
            self.span_row(xs, xn - 1, yy, color);
            proof {
                lemma_cpaints_compose(
                    orig,
                    prev,
                    *self,
                    (|px: int, py: int| xs as int <= px < xn as int && ys as int <= py < yy as int),
                    (|px: int, py: int| py == yy as int && xs as int <= px <= xn as int - 1),
                    (|px: int, py: int| xs as int <= px < xn as int && ys as int <= py < yy as int
                        + 1),
                    color,
                );
            }
            yy = yy + 1;
        }
        proof {
            lemma_cpaints_weaken(
                orig,
                *self,
                (|px: int, py: int| xs as int <= px < xn as int && ys as int <= py < yy as int),
                cov,
                color,
            );
        }
    }

    /// Draws the line from (x0, y0) to (x1, y1), clipped to the canvas.
    pub fn draw_line(&mut self, x0: i32, y0: i32, x1: i32, y1: i32, color: u32)
        requires
            old(self).wf(),
        ensures
            final(self).wf(),
            cpaints(
                *old(self),
                *final(self),
                (|px: int, py: int| line_covers(
                    x0 as int,
                    y0 as int,
                    x1 as int,
                    y1 as int,
                    old(self).width as int,
                    old(self).height as int,
                    px,
                    py,
                )),
                color,
            ),
    {
        let ghost orig = *self;
        let ghost cov = (|px: int, py: int| line_covers(
            x0 as int,
            y0 as int,
            x1 as int,
            y1 as int,
            orig.width as int,
            orig.height as int,
            px,
            py,
        ));
        let clipped = box_clip(x0, y0, x1, y1, self.width, self.height);
        if let Some((cx0, cy0, cx1, cy1)) = clipped {
            let ghost a = cx0 as int;
            let ghost b = cy0 as int;
            let ghost c = cx1 as int;
            let ghost d = cy1 as int;
            let ghost total = line_total(a, b, c, d);
            let ghost prev0 = *self;
            self.draw_pixel_unchecked(cx1 as u32, cy1 as u32, color);
            proof {
                prev0.lemma_update_cpaints(*self, c, d, color);
                lemma_on_line_endpoint(a, b, c, d);
                lemma_cpaints_weaken(
                    orig,
                    *self,
                    (|px: int, py: int| px == c && py == d),
                    (|px: int, py: int| on_line(a, b, c, d, px, py) && (line_k(a, b, c, d, px, py)
                        < 0 || line_k(a, b, c, d, px, py) == total)),
                    color,
                );
            }
            let mut ray = Ray::new(cx0, cy0, cx1, cy1);
            while !ray.reached
                invariant
                    orig.wf(),
                    self.wf(),
                    self.width == orig.width,
                    self.height == orig.height,
                    ray.wf(),
                    ray.x0 == cx0 && ray.y0 == cy0 && ray.x1 == cx1 && ray.y1 == cy1,
                    ray.taken() <= ray.total(),
                    a == cx0 as int && b == cy0 as int && c == cx1 as int && d == cy1 as int,
                    total == ray.total() && total == line_total(a, b, c, d),
                    0 <= cx0 < orig.width && 0 <= cy0 < orig.height,
                    0 <= cx1 < orig.width && 0 <= cy1 < orig.height,
                    cpaints(
                        orig,
                        *self,
                        (|px: int, py: int| on_line(a, b, c, d, px, py) && (line_k(
                            a,
                            b,
                            c,
                            d,
                            px,
                            py,
                        ) < ray.taken() || line_k(a, b, c, d, px, py) == total)),
                        color,
                    ),
                decreases ray.total() - ray.taken(),
            {
                let ghost pre_ray = ray;
                let ghost prev = *self;
                let (ex, ey) = ray.next_xy();
                proof {
                    pre_ray.lemma_position();
                    lemma_on_line_at(a, b, c, d, pre_ray.taken());
                }
                self.draw_pixel_unchecked(ex as u32, ey as u32, color);
                proof {
                    prev.lemma_update_cpaints(*self, ex as int, ey as int, color);
                    lemma_cpaints_weaken(
                        prev,
                        *self,
                        (|px: int, py: int| px == ex as int && py == ey as int),
                        (|px: int, py: int| on_line(a, b, c, d, px, py) && line_k(
                            a,
                            b,
                            c,
                            d,
                            px,
                            py,
                        ) == pre_ray.taken()),
                        color,
                    );
                    lemma_cpaints_compose(
                        orig,
                        prev,
                        *self,
                        (|px: int, py: int| on_line(a, b, c, d, px, py) && (line_k(
                            a,
                            b,
                            c,
                            d,
                            px,
                            py,
                        ) < pre_ray.taken() || line_k(a, b, c, d, px, py) == total)),
                        (|px: int, py: int| on_line(a, b, c, d, px, py) && line_k(
                            a,
                            b,
                            c,
                            d,
                            px,
                            py,
                        ) == pre_ray.taken()),
                        (|px: int, py: int| on_line(a, b, c, d, px, py) && (line_k(
                            a,
                            b,
                            c,
                            d,
                            px,
                            py,
                        ) < pre_ray.taken() + 1 || line_k(a, b, c, d, px, py) == total)),
                        color,
                    );
                }
            }
            proof {
                lemma_cpaints_weaken(
                    orig,
                    *self,
                    (|px: int, py: int| on_line(a, b, c, d, px, py) && (line_k(a, b, c, d, px, py)
                        < ray.taken() || line_k(a, b, c, d, px, py) == total)),
                    cov,
                    color,
                );
            }
        } else {
            proof {
                assert(cpaints(orig, *self, cov, color));
            }
        }
    }

    /// Fills the circle of radius r around (center_x, center_y), clipped to
    /// the canvas, by the midpoint octant walk, replacing four mirrored
    /// pixel runs per step.
    #[verifier::rlimit(80)]
    pub fn fill_circle(&mut self, center_x: i32, center_y: i32, r: u31, color: u32)
        requires
            old(self).wf(),
        ensures
            final(self).wf(),
            cpaints(
                *old(self),
                *final(self),
                (|px: int, py: int| canvas_circle_covers(
                    r as int,
                    center_x as int,
                    center_y as int,
                    px,
                    py,
                )),
                color,
            ),
    {
        let ghost orig = *self;
        let ghost ri = r as int;
        let ghost cxi = center_x as int;
        let ghost cyi = center_y as int;
        let ghost cov = (|px: int, py: int| canvas_circle_covers(ri, cxi, cyi, px, py));
        let cx = center_x as i64;
        let cy = center_y as i64;
        let rr = r as i64;
        if cx + rr < 0 || cy + rr < 0 || cx - rr >= (self.width as i64) || cy - rr >= (
        self.height as i64) {
            proof {
                assert forall|px: int, py: int| orig.in_view(px, py) implies !cov(px, py) by {
                    if cov(px, py) {
                        let n = choose|n: int|
                            0 <= n && #[trigger] circle_active(ri, n) && ((absi(py - cyi) == n
                                && absi(px - cxi) <= circle_y(ri, n)) || (absi(py - cyi)
                                == circle_y(ri, n) && absi(px - cxi) <= n));
                        lemma_circle_y_mono(ri, 0, n);
                        if ri >= 1 {
                            lemma_circle_props(ri, n);
                        }
                    }
                }
                assert(cpaints(orig, *self, cov, color));
            }
            return ;
        }
        let mut x0: i64 = 0;
        let mut y0: i64 = rr;
        let mut d: i64 = 3 - 2 * rr;
        while y0 >= x0
            invariant
                orig.wf(),
                self.wf(),
                self.width == orig.width,
                self.height == orig.height,
                ri == r as int,
                cxi == center_x as int && cyi == center_y as int,
                cx == center_x as i64 && cy == center_y as i64 && rr == r as i64,
                0 <= x0 <= rr + 1,
                x0 - 2 <= y0 <= rr,
                y0 as int == circle_y(ri, x0 as int),
                d as int == circle_d(ri, x0 as int),
                -4 * ri - 10 <= d as int <= 4 * ri + 20,
                x0 == 0 || circle_active(ri, x0 as int - 1),
                cpaints(
                    orig,
                    *self,
                    (|px: int, py: int| canvas_circle_partial(ri, cxi, cyi, x0 as int, px, py)),
                    color,
                ),
            decreases y0 + 2 - x0,
        {
            let ghost n = x0 as int;
            let ghost covp = (|px: int, py: int| canvas_circle_partial(ri, cxi, cyi, n, px, py));
            proof {
                if ri >= 1 {
                    lemma_circle_props(ri, n);
                }
                lemma_circle_y_step(ri, n + 1);
            }
            let ghost prev1 = *self;
            self.span_row(cx - x0, cx + x0, cy + y0, color);
            proof {
                lemma_cpaints_compose(
                    orig,
                    prev1,
                    *self,
                    covp,
                    (|px: int, py: int| py == (cy + y0) as int && (cx - x0) as int <= px <= (cx
                        + x0) as int),
                    (|px: int, py: int| covp(px, py) || (py == (cy + y0) as int && (cx
                        - x0) as int <= px <= (cx + x0) as int)),
                    color,
                );
            }
            let ghost prev2 = *self;
            self.span_row(cx - y0, cx + y0, cy + x0, color);
            proof {
                lemma_cpaints_compose(
                    orig,
                    prev2,
                    *self,
                    (|px: int, py: int| covp(px, py) || (py == (cy + y0) as int && (cx
                        - x0) as int <= px <= (cx + x0) as int)),
                    (|px: int, py: int| py == (cy + x0) as int && (cx - y0) as int <= px <= (cx
                        + y0) as int),
                    (|px: int, py: int| covp(px, py) || (py == (cy + y0) as int && (cx
                        - x0) as int <= px <= (cx + x0) as int) || (py == (cy + x0) as int && (cx
                        - y0) as int <= px <= (cx + y0) as int)),
                    color,
                );
            }
            let ghost prev3 = *self;
            self.span_row(cx - y0, cx + y0, cy - x0, color);
            proof {
                lemma_cpaints_compose(
                    orig,
                    prev3,
                    *self,
                    (|px: int, py: int| covp(px, py) || (py == (cy + y0) as int && (cx
                        - x0) as int <= px <= (cx + x0) as int) || (py == (cy + x0) as int && (cx
                        - y0) as int <= px <= (cx + y0) as int)),
                    (|px: int, py: int| py == (cy - x0) as int && (cx - y0) as int <= px <= (cx
                        + y0) as int),
                    (|px: int, py: int| covp(px, py) || (py == (cy + y0) as int && (cx
                        - x0) as int <= px <= (cx + x0) as int) || ((py == (cy + x0) as int || py
                        == (cy - x0) as int) && (cx - y0) as int <= px <= (cx + y0) as int)),
                    color,
                );
            }
            let ghost prev4 = *self;
            self.span_row(cx - x0, cx + x0, cy - y0, color);
            proof {
                lemma_cpaints_compose(
                    orig,
                    prev4,
                    *self,
                    (|px: int, py: int| covp(px, py) || (py == (cy + y0) as int && (cx
                        - x0) as int <= px <= (cx + x0) as int) || ((py == (cy + x0) as int || py
                        == (cy - x0) as int) && (cx - y0) as int <= px <= (cx + y0) as int)),
                    (|px: int, py: int| py == (cy - y0) as int && (cx - x0) as int <= px <= (cx
                        + x0) as int),
                    (|px: int, py: int| covp(px, py) || ((py == (cy + y0) as int || py == (cy
                        - y0) as int) && (cx - x0) as int <= px <= (cx + x0) as int) || ((py == (cy
                        + x0) as int || py == (cy - x0) as int) && (cx - y0) as int <= px <= (cx
                        + y0) as int)),
                    color,
                );
                assert forall|px: int, py: int| orig.in_view(px, py) implies ((covp(px, py) || ((py
                    == (cy + y0) as int || py == (cy - y0) as int) && (cx - x0) as int <= px <= (cx
                    + x0) as int) || ((py == (cy + x0) as int || py == (cy - x0) as int) && (cx
                    - y0) as int <= px <= (cx + y0) as int)) <==> canvas_circle_partial(
                    ri,
                    cxi,
                    cyi,
                    n + 1,
                    px,
                    py,
                )) by {
                    if canvas_circle_partial(ri, cxi, cyi, n + 1, px, py) {
                        let j = choose|j: int|
                            0 <= j < n + 1 && ((absi(py - cyi) == j && absi(px - cxi)
                                <= #[trigger] circle_y(ri, j)) || (absi(py - cyi) == circle_y(
                                ri,
                                j,
                            ) && absi(px - cxi) <= j));
                        if j < n {
                            assert(canvas_circle_partial(ri, cxi, cyi, n, px, py));
                        }
                    }
                    if covp(px, py) {
                        let j = choose|j: int|
                            0 <= j < n && ((absi(py - cyi) == j && absi(px - cxi)
                                <= #[trigger] circle_y(ri, j)) || (absi(py - cyi) == circle_y(
                                ri,
                                j,
                            ) && absi(px - cxi) <= j));
                        assert(canvas_circle_partial(ri, cxi, cyi, n + 1, px, py));
                    }
                }
                lemma_cpaints_weaken(
                    orig,
                    *self,
                    (|px: int, py: int| covp(px, py) || ((py == (cy + y0) as int || py == (cy
                        - y0) as int) && (cx - x0) as int <= px <= (cx + x0) as int) || ((py == (cy
                        + x0) as int || py == (cy - x0) as int) && (cx - y0) as int <= px <= (cx
                        + y0) as int)),
                    (|px: int, py: int| canvas_circle_partial(ri, cxi, cyi, n + 1, px, py)),
                    color,
                );
            }
            if d < 0 {
                d = d + 4 * x0 + 6;
            } else {
                d = d + 4 * (x0 - y0) + 10;
                y0 = y0 - 1;
            }
            x0 = x0 + 1;
        }
        let ghost nend = x0 as int;
        proof {
            assert forall|px: int, py: int| orig.in_view(px, py) implies (canvas_circle_partial(
                ri,
                cxi,
                cyi,
                nend,
                px,
                py,
            ) <==> cov(px, py)) by {
                if canvas_circle_partial(ri, cxi, cyi, nend, px, py) {
                    let j = choose|j: int|
                        0 <= j < nend && ((absi(py - cyi) == j && absi(px - cxi)
                            <= #[trigger] circle_y(ri, j)) || (absi(py - cyi) == circle_y(ri, j)
                            && absi(px - cxi) <= j));
                    assert(circle_active(ri, nend - 1));
                    lemma_circle_y_mono(ri, j, nend - 1);
                    assert(circle_active(ri, j));
                }
                if cov(px, py) {
                    let m = choose|m: int|
                        0 <= m && #[trigger] circle_active(ri, m) && ((absi(py - cyi) == m && absi(
                            px - cxi,
                        ) <= circle_y(ri, m)) || (absi(py - cyi) == circle_y(ri, m) && absi(
                            px - cxi,
                        ) <= m));
                    assert(m < nend) by {
                        if m >= nend {
                            lemma_circle_y_mono(ri, nend, m);
                        }
                    }
                    assert(canvas_circle_partial(ri, cxi, cyi, nend, px, py));
                }
            }
            lemma_cpaints_weaken(
                orig,
                *self,
                (|px: int, py: int| canvas_circle_partial(ri, cxi, cyi, nend, px, py)),
                cov,
                color,
            );
        }
    }

    /// The binary PPM serialization of the canvas.
    pub fn ppm_data(&self) -> (out: Vec<u8>)
        requires
            self.wf(),
        ensures
            out@ == ppm_bytes(self.width as int, self.height as int, self.buf()),
    {
        ppm_data(self.width, self.height, &self.buffer)
    }
}

} // verus!
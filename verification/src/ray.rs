//! Bresenham line traversal.
//!
//! A `Ray` walks the integer pixels of a line segment one step at a time
//! along the major axis (the axis with the larger absolute delta), carrying
//! the classic doubled error term. `next_xy` emits the current pixel and
//! advances; `reached` is set once the major coordinate arrives at the end
//! point, whose pixel is the next (and last) one emitted.

use vstd::prelude::*;

verus! {

/// Step direction along one axis: toward `c1` from `c0`, and `1` for equal
/// coordinates.
pub open spec fn line_sx(c0: int, c1: int) -> int {
    if c1 < c0 {
        -1
    } else {
        1
    }
}

/// Absolute delta along one axis.
pub open spec fn line_dx(c0: int, c1: int) -> int {
    if c1 < c0 {
        c0 - c1
    } else {
        c1 - c0
    }
}

/// Whether x is the major axis (strictly larger absolute delta).
pub open spec fn line_major_x(x0: int, y0: int, x1: int, y1: int) -> bool {
    line_dx(y0, y1) < line_dx(x0, x1)
}

/// Steps along the major axis: one per emitted pixel.
pub open spec fn line_total(x0: int, y0: int, x1: int, y1: int) -> int {
    if line_major_x(x0, y0, x1, y1) {
        line_dx(x0, x1)
    } else {
        line_dx(y0, y1)
    }
}

/// Total movement along the minor axis.
pub open spec fn line_minor(x0: int, y0: int, x1: int, y1: int) -> int {
    if line_major_x(x0, y0, x1, y1) {
        line_dx(y0, y1)
    } else {
        line_dx(x0, x1)
    }
}

/// Minor-axis offset after `k` major steps: `k·minor/total` rounded half
/// up, which is what the doubled error term computes.
pub open spec fn bres_j(k: int, total: int, minor: int) -> int {
    if total <= 0 {
        0
    } else {
        (2 * k * minor + total) / (2 * total)
    }
}

/// The k-th pixel emitted when traversing the segment, for 0 ≤ k ≤ total.
pub open spec fn bres_point(x0: int, y0: int, x1: int, y1: int, k: int) -> (int, int) {
    if line_major_x(x0, y0, x1, y1) {
        (
            x0 + line_sx(x0, x1) * k,
            y0 + line_sx(y0, y1) * bres_j(k, line_dx(x0, x1), line_dx(y0, y1)),
        )
    } else {
        (
            x0 + line_sx(x0, x1) * bres_j(k, line_dx(y0, y1), line_dx(x0, x1)),
            y0 + line_sx(y0, y1) * k,
        )
    }
}

/// The major-axis step count a pixel would have on the segment.
pub open spec fn line_k(x0: int, y0: int, x1: int, y1: int, px: int, py: int) -> int {
    if line_major_x(x0, y0, x1, y1) {
        line_sx(x0, x1) * (px - x0)
    } else {
        line_sx(y0, y1) * (py - y0)
    }
}

/// Whether (px, py) is one of the pixels the traversal of the segment
/// emits, the end point included.
pub open spec fn on_line(x0: int, y0: int, x1: int, y1: int, px: int, py: int) -> bool {
    let k = line_k(x0, y0, x1, y1, px, py);
    0 <= k <= line_total(x0, y0, x1, y1) && (px, py) == bres_point(x0, y0, x1, y1, k)
}

/// The end point is itself on the line, with the final step count; and it
/// is the only on-line pixel with that step count.
pub proof fn lemma_on_line_endpoint(x0: int, y0: int, x1: int, y1: int)
    ensures
        on_line(x0, y0, x1, y1, x1, y1),
        line_k(x0, y0, x1, y1, x1, y1) == line_total(x0, y0, x1, y1),
        forall|px: int, py: int|
            #[trigger] on_line(x0, y0, x1, y1, px, py) && line_k(x0, y0, x1, y1, px, py)
                == line_total(x0, y0, x1, y1) ==> px == x1 && py == y1,
{
    let sx = line_sx(x0, x1);
    let sy = line_sx(y0, y1);
    let t = line_total(x0, y0, x1, y1);
    let m = line_minor(x0, y0, x1, y1);
    lemma_sign_facts(x0, x1, sx, line_dx(x0, x1));
    lemma_sign_facts(y0, y1, sy, line_dx(y0, y1));
    lemma_bres_j_end(t, m);
    if line_major_x(x0, y0, x1, y1) {
        assert(line_k(x0, y0, x1, y1, x1, y1) == sx * (x1 - x0));
        assert(bres_point(x0, y0, x1, y1, t) == (x1, y1));
    } else {
        assert(bres_point(x0, y0, x1, y1, t) == (x1, y1));
    }
}

/// After all major steps the minor offset equals the whole minor delta.
pub proof fn lemma_bres_j_end(t: int, m: int)
    requires
        0 <= m <= t,
    ensures
        bres_j(t, t, m) == m,
{
    if t > 0 {
        assert(2 * t * m + t == (2 * t) * m + t) by (nonlinear_arith);
        vstd::arithmetic::div_mod::lemma_fundamental_div_mod_converse(2 * t * m + t, 2 * t, m, t);
    }
}

/// The k-th traversal pixel is on the line, with step count k.
pub proof fn lemma_on_line_at(x0: int, y0: int, x1: int, y1: int, k: int)
    requires
        0 <= k <= line_total(x0, y0, x1, y1),
    ensures
        ({
            let p = bres_point(x0, y0, x1, y1, k);
            on_line(x0, y0, x1, y1, p.0, p.1) && line_k(x0, y0, x1, y1, p.0, p.1) == k
        }),
{
    let sx = line_sx(x0, x1);
    let sy = line_sx(y0, y1);
    let p = bres_point(x0, y0, x1, y1, k);
    if line_major_x(x0, y0, x1, y1) {
        assert(sx * ((x0 + sx * k) - x0) == k) by (nonlinear_arith)
            requires
                sx == 1 || sx == -1,
        ;
    } else {
        assert(sy * ((y0 + sy * k) - y0) == k) by (nonlinear_arith)
            requires
                sy == 1 || sy == -1,
        ;
    }
}

pub struct Ray {
    pub x0: i32,
    pub y0: i32,
    pub x1: i32,
    pub y1: i32,
    pub reached: bool,
    pub sx: i64,
    pub sy: i64,
    pub dx: i64,
    pub dy: i64,
    pub error: i64,
    pub x: i64,
    pub y: i64,
    pub major_x: bool,
}

impl Ray {
    /// Major-axis step count (pixels emitted so far).
    pub open spec fn taken(self) -> int {
        if self.major_x {
            (self.x - self.x0) * self.sx
        } else {
            (self.y - self.y0) * self.sy
        }
    }

    /// Minor-axis steps made so far.
    pub open spec fn cross(self) -> int {
        if self.major_x {
            (self.y - self.y0) * self.sy
        } else {
            (self.x - self.x0) * self.sx
        }
    }

    /// Steps along the major axis for the whole segment.
    pub open spec fn total(self) -> int {
        if self.major_x {
            self.dx as int
        } else {
            self.dy as int
        }
    }

    /// Total movement along the minor axis.
    pub open spec fn minor(self) -> int {
        if self.major_x {
            self.dy as int
        } else {
            self.dx as int
        }
    }

    /// The current (not yet emitted) pixel.
    pub open spec fn cur_x(self) -> int {
        self.x as int
    }

    /// The current (not yet emitted) pixel.
    pub open spec fn cur_y(self) -> int {
        self.y as int
    }

    /// The traversal state is consistent: derived quantities match the end
    /// points, and the error term carries the exact Bresenham relation.
    pub open spec fn wf(self) -> bool {
        &&& self.sx == line_sx(self.x0 as int, self.x1 as int)
        &&& self.sy == line_sx(self.y0 as int, self.y1 as int)
        &&& self.dx == line_dx(self.x0 as int, self.x1 as int)
        &&& self.dy == line_dx(self.y0 as int, self.y1 as int)
        &&& self.major_x == line_major_x(self.x0 as int, self.y0 as int, self.x1 as int, self.y1 as int)
        &&& 0 <= self.taken() <= self.total() + 1
        &&& 0 <= self.cross() <= self.minor() + 1
        &&& self.taken() <= self.total() ==> self.cross() <= self.minor()
        &&& self.error == 2 * self.taken() * self.minor() - 2 * self.cross() * self.total()
            - self.total()
        &&& (self.total() >= 1 && self.taken() <= self.total()) ==> (-2) * self.total()
            <= self.error <= -1
        &&& self.total() == 0 ==> self.error == 0 && self.cross() == self.taken()
        &&& self.reached <==> self.taken() >= self.total()
        &&& self.taken() <= self.total() ==> crate::renderer::mini(self.x0 as int, self.x1 as int)
            <= self.x <= crate::renderer::maxi(self.x0 as int, self.x1 as int)
        &&& self.taken() <= self.total() ==> crate::renderer::mini(self.y0 as int, self.y1 as int)
            <= self.y <= crate::renderer::maxi(self.y0 as int, self.y1 as int)
        &&& self.taken() == self.total() + 1 ==> crate::renderer::mini(
            self.x0 as int,
            self.x1 as int,
        ) - 1 <= self.x <= crate::renderer::maxi(self.x0 as int, self.x1 as int) + 1
        &&& self.taken() == self.total() + 1 ==> crate::renderer::mini(
            self.y0 as int,
            self.y1 as int,
        ) - 1 <= self.y <= crate::renderer::maxi(self.y0 as int, self.y1 as int) + 1
    }

    /// At the final major step the minor axis has arrived too.
    pub proof fn lemma_at_end(self)
        requires
            self.wf(),
            self.taken() == self.total(),
        ensures
            self.cross() == self.minor(),
    {
        let t = self.total();
        let m = self.minor();
        let c = self.cross();
        if t == 0 {
            assert(m == 0);
        } else {
            assert(self.error == 2 * t * m - 2 * c * t - t);
            let e = 2 * m - 2 * c - 1;
            assert(self.error == t * e) by (nonlinear_arith)
                requires
                    self.error == 2 * t * m - 2 * c * t - t && e == 2 * m - 2 * c - 1,
            ;
            assert(-2 <= e <= -1) by (nonlinear_arith)
                requires
                    t >= 1 && (-2) * t <= t * e <= -1,
            ;
            assert(e == -1);
        }
    }

    /// The minor offset is the closed-form rounded ratio of steps taken.
    pub proof fn lemma_cross_closed(self)
        requires
            self.wf(),
            self.taken() <= self.total(),
        ensures
            self.cross() == bres_j(self.taken(), self.total(), self.minor()),
    {
        let t = self.total();
        let m = self.minor();
        let k = self.taken();
        let c = self.cross();
        if t == 0 {
        } else {
            assert(2 * k * m + t == (2 * t) * c + (self.error + 2 * t)) by (nonlinear_arith)
                requires
                    self.error == 2 * k * m - 2 * c * t - t,
            ;
            vstd::arithmetic::div_mod::lemma_fundamental_div_mod_converse(
                2 * k * m + t,
                2 * t,
                c,
                self.error + 2 * t,
            );
        }
    }

    /// The current pixel is the closed-form point for the steps taken, and
    /// lies in the bounding rectangle of the segment.
    pub proof fn lemma_position(self)
        requires
            self.wf(),
            self.taken() <= self.total(),
        ensures
            (self.cur_x(), self.cur_y()) == bres_point(
                self.x0 as int,
                self.y0 as int,
                self.x1 as int,
                self.y1 as int,
                self.taken(),
            ),
            crate::renderer::mini(self.x0 as int, self.x1 as int) <= self.cur_x()
                <= crate::renderer::maxi(self.x0 as int, self.x1 as int),
            crate::renderer::mini(self.y0 as int, self.y1 as int) <= self.cur_y()
                <= crate::renderer::maxi(self.y0 as int, self.y1 as int),
    {
        self.lemma_cross_closed();
        let sx = self.sx as int;
        let sy = self.sy as int;
        assert(sx * sx == 1 && sy * sy == 1) by (nonlinear_arith)
            requires
                (sx == 1 || sx == -1) && (sy == 1 || sy == -1),
        ;
        if self.major_x {
            assert(self.x == self.x0 + sx * self.taken()) by (nonlinear_arith)
                requires
                    self.taken() == (self.x - self.x0) * sx && sx * sx == 1,
            ;
            assert(self.y == self.y0 + sy * self.cross()) by (nonlinear_arith)
                requires
                    self.cross() == (self.y - self.y0) * sy && sy * sy == 1,
            ;
        } else {
            assert(self.y == self.y0 + sy * self.taken()) by (nonlinear_arith)
                requires
                    self.taken() == (self.y - self.y0) * sy && sy * sy == 1,
            ;
            assert(self.x == self.x0 + sx * self.cross()) by (nonlinear_arith)
                requires
                    self.cross() == (self.x - self.x0) * sx && sx * sx == 1,
            ;
        }
    }

    /// Starts a traversal from (x0, y0) toward (x1, y1).
    pub fn new(x0: i32, y0: i32, x1: i32, y1: i32) -> (r: Ray)
        ensures
            r.wf(),
            r.x0 == x0,
            r.y0 == y0,
            r.x1 == x1,
            r.y1 == y1,
            r.taken() == 0,
            r.cross() == 0,
            r.cur_x() == x0,
            r.cur_y() == y0,
    {
        let sx: i64 = if x1 < x0 {
            -1
        } else {
            1
        };
        let sy: i64 = if y1 < y0 {
            -1
        } else {
            1
        };
        let dx: i64 = if x1 < x0 {
            (x0 as i64) - (x1 as i64)
        } else {
            (x1 as i64) - (x0 as i64)
        };
        let dy: i64 = if y1 < y0 {
            (y0 as i64) - (y1 as i64)
        } else {
            (y1 as i64) - (y0 as i64)
        };
        let x: i64 = x0 as i64;
        let y: i64 = y0 as i64;
        let major_x = dy < dx;
        let (reached, error) = if major_x {
            (x0 == x1, -dx)
        } else {
            (y0 == y1, -dy)
        };
        let ray = Ray { x0, y0, x1, y1, reached, sx, sy, dx, dy, error, x, y, major_x };
        proof {
            assert((ray.x - ray.x0) * ray.sx == 0 && (ray.y - ray.y0) * ray.sy == 0)
                by (nonlinear_arith)
                requires
                    ray.x == ray.x0 && ray.y == ray.y0,
            ;
            assert(2 * ray.taken() * ray.minor() == 0 && 2 * ray.cross() * ray.total() == 0)
                by (nonlinear_arith)
                requires
                    ray.taken() == 0 && ray.cross() == 0,
            ;
        }
        ray
    }

    /// Emits the current pixel and advances one major step. May be called
    /// until the pixel at the end point has been emitted; that emission
    /// happens with `taken() == total()`, after `reached` is already set.
    pub fn next_xy(&mut self) -> (r: (i32, i32))
        requires
            old(self).wf(),
            old(self).taken() <= old(self).total(),
        ensures
            final(self).wf(),
            final(self).x0 == old(self).x0,
            final(self).y0 == old(self).y0,
            final(self).x1 == old(self).x1,
            final(self).y1 == old(self).y1,
            r.0 as int == old(self).cur_x(),
            r.1 as int == old(self).cur_y(),
            final(self).taken() == old(self).taken() + 1,
            old(self).cross() <= final(self).cross() <= old(self).cross() + 1,
            final(self).reached <==> old(self).taken() + 1 >= old(self).total(),
    {
        if self.major_x {
            self.iter_x()
        } else {
            self.iter_y()
        }
    }

    /// One step with x as the major axis.
    fn iter_x(&mut self) -> (r: (i32, i32))
        requires
            old(self).wf(),
            old(self).major_x,
            old(self).taken() <= old(self).total(),
        ensures
            final(self).wf(),
            final(self).x0 == old(self).x0,
            final(self).y0 == old(self).y0,
            final(self).x1 == old(self).x1,
            final(self).y1 == old(self).y1,
            r.0 as int == old(self).cur_x(),
            r.1 as int == old(self).cur_y(),
            final(self).taken() == old(self).taken() + 1,
            old(self).cross() <= final(self).cross() <= old(self).cross() + 1,
            final(self).reached <==> old(self).taken() + 1 >= old(self).total(),
    {
        let ghost pre = *self;
        let result = (self.x as i32, self.y as i32);
        self.error = self.error + self.dy + self.dy;
        if self.error >= 0 {
            self.y = self.y + self.sy;
            self.error = self.error - (self.dx + self.dx);
        }
        self.x = self.x + self.sx;
        if self.x == (self.x1 as i64) {
            self.reached = true;
        }
        proof {
            lemma_step_state(pre, *self, true);
        }
        result
    }

    /// One step with y as the major axis.
    fn iter_y(&mut self) -> (r: (i32, i32))
        requires
            old(self).wf(),
            !old(self).major_x,
            old(self).taken() <= old(self).total(),
        ensures
            final(self).wf(),
            final(self).x0 == old(self).x0,
            final(self).y0 == old(self).y0,
            final(self).x1 == old(self).x1,
            final(self).y1 == old(self).y1,
            r.0 as int == old(self).cur_x(),
            r.1 as int == old(self).cur_y(),
            final(self).taken() == old(self).taken() + 1,
            old(self).cross() <= final(self).cross() <= old(self).cross() + 1,
            final(self).reached <==> old(self).taken() + 1 >= old(self).total(),
    {
        let ghost pre = *self;
        let result = (self.x as i32, self.y as i32);
        self.error = self.error + self.dx + self.dx;
        if self.error >= 0 {
            self.x = self.x + self.sx;
            self.error = self.error - (self.dy + self.dy);
        }
        self.y = self.y + self.sy;
        if self.y == (self.y1 as i64) {
            self.reached = true;
        }
        proof {
            lemma_step_state(pre, *self, false);
        }
        result
    }
}

/// The zeroth traversal pixel is the start point.
pub proof fn lemma_bres_point_zero(x0: int, y0: int, x1: int, y1: int)
    ensures
        bres_point(x0, y0, x1, y1, 0) == (x0, y0),
{
    lemma_bres_j_zero(line_dx(x0, x1), line_dx(y0, y1));
    lemma_bres_j_zero(line_dx(y0, y1), line_dx(x0, x1));
}

impl Ray {
    /// Steps the traversal until it emits a pixel on `row`, and returns
    /// that pixel: the first pixel of the (downward) segment on that row.
    /// `cur` must be the pixel emitted by the most recent step.
    pub(crate) fn seek_row(&mut self, cur_x: i32, cur_y: i32, row: i64) -> (r: (i32, i32))
        requires
            old(self).wf(),
            line_sx(old(self).y0 as int, old(self).y1 as int) == 1,
            1 <= old(self).taken() <= old(self).total() + 1,
            (cur_x as int, cur_y as int) == bres_point(
                old(self).x0 as int,
                old(self).y0 as int,
                old(self).x1 as int,
                old(self).y1 as int,
                old(self).taken() - 1,
            ),
            cur_y as int <= row as int <= old(self).y1 as int,
            cur_y as int == row as int ==> (old(self).taken() - 1 == 0 || bres_point(
                old(self).x0 as int,
                old(self).y0 as int,
                old(self).x1 as int,
                old(self).y1 as int,
                old(self).taken() - 2,
            ).1 < row as int),
        ensures
            final(self).wf(),
            final(self).x0 == old(self).x0,
            final(self).y0 == old(self).y0,
            final(self).x1 == old(self).x1,
            final(self).y1 == old(self).y1,
            1 <= final(self).taken() <= final(self).total() + 1,
            (r.0 as int, r.1 as int) == bres_point(
                old(self).x0 as int,
                old(self).y0 as int,
                old(self).x1 as int,
                old(self).y1 as int,
                final(self).taken() - 1,
            ),
            r.1 as int == row as int,
            r.0 as int == row_x(
                old(self).x0 as int,
                old(self).y0 as int,
                old(self).x1 as int,
                old(self).y1 as int,
                row as int,
            ),
    {
        let ghost a = self.x0 as int;
        let ghost b = self.y0 as int;
        let ghost c = self.x1 as int;
        let ghost d = self.y1 as int;
        let mut cx = cur_x;
        let mut cy = cur_y;
        while (cy as i64) != row
            invariant
                self.wf(),
                self.x0 as int == a && self.y0 as int == b && self.x1 as int == c && self.y1 as int
                    == d,
                line_sx(b, d) == 1,
                1 <= self.taken() <= self.total() + 1,
                (cx as int, cy as int) == bres_point(a, b, c, d, self.taken() - 1),
                cy as int <= row as int <= d,
                cy as int == row as int ==> (self.taken() - 1 == 0 || bres_point(
                    a,
                    b,
                    c,
                    d,
                    self.taken() - 2,
                ).1 < row as int),
            decreases self.total() + 1 - self.taken(),
        {
            proof {
                lemma_on_line_endpoint(a, b, c, d);
                lemma_on_line_at(a, b, c, d, self.taken() - 1);
                if self.taken() - 1 == self.total() {
                    lemma_on_line_endpoint(a, b, c, d);
                    assert((cx as int, cy as int) == bres_point(a, b, c, d, line_total(a, b, c, d)));
                    assert(cy as int == d);
                    assert(false);
                }
            }
            let ghost pre = *self;
            let (nx, ny) = self.next_xy();
            cx = nx;
            cy = ny;
            proof {
                pre.lemma_position();
                lemma_emit_step(a, b, c, d, pre.taken());
            }
        }
        proof {
            let k = self.taken() - 1;
            lemma_bres_point_zero(a, b, c, d);
            lemma_first_hit(a, b, c, d, k);
            assert(line_sx(b, d) * (row as int - b) == row as int - b) by (nonlinear_arith)
                requires
                    line_sx(b, d) == 1,
            ;
        }
        (cx, cy)
    }
}

/// One Bresenham step preserves the state relation: the major count rises
/// by one, the minor count rises by zero or one, the error relation and its
/// bounds are maintained, and the end point is hit exactly.
proof fn lemma_step_state(pre: Ray, post: Ray, major: bool)
    requires
        pre.wf(),
        pre.major_x == major,
        pre.taken() <= pre.total(),
        post.x0 == pre.x0 && post.y0 == pre.y0 && post.x1 == pre.x1 && post.y1 == pre.y1,
        post.sx == pre.sx && post.sy == pre.sy && post.dx == pre.dx && post.dy == pre.dy,
        post.major_x == pre.major_x,
        ({
            let trig = pre.error + 2 * pre.minor() >= 0;
            if major {
                &&& post.x == pre.x + pre.sx
                &&& post.y == (if trig {
                    pre.y + pre.sy
                } else {
                    pre.y as int
                })
            } else {
                &&& post.y == pre.y + pre.sy
                &&& post.x == (if trig {
                    pre.x + pre.sx
                } else {
                    pre.x as int
                })
            }
        }),
        post.error == (if pre.error + 2 * pre.minor() >= 0 {
            pre.error + 2 * pre.minor() - 2 * pre.total()
        } else {
            pre.error + 2 * pre.minor()
        }),
        post.reached == (pre.reached || (if major {
            post.x == pre.x1 as int
        } else {
            post.y == pre.y1 as int
        })),
    ensures
        post.wf(),
        post.taken() == pre.taken() + 1,
        pre.cross() <= post.cross() <= pre.cross() + 1,
        post.reached <==> pre.taken() + 1 >= pre.total(),
{
    let sx = pre.sx as int;
    let sy = pre.sy as int;
    let t = pre.total();
    let m = pre.minor();
    let k = pre.taken();
    let c = pre.cross();
    let trig = pre.error + 2 * m >= 0;
    lemma_sign_facts(pre.x0 as int, pre.x1 as int, sx, pre.dx as int);
    lemma_sign_facts(pre.y0 as int, pre.y1 as int, sy, pre.dy as int);
    assert(m <= t);
    // The step counts advance as claimed.
    if major {
        assert(post.taken() == k + 1) by (nonlinear_arith)
            requires
                post.taken() == (post.x - pre.x0) * sx && post.x == pre.x + sx && k == (pre.x
                    - pre.x0) * sx && sx * sx == 1,
        ;
        if trig {
            assert(post.cross() == c + 1) by (nonlinear_arith)
                requires
                    post.cross() == (post.y - pre.y0) * sy && post.y == pre.y + sy && c == (pre.y
                        - pre.y0) * sy && sy * sy == 1,
            ;
        } else {
            assert(post.cross() == c);
        }
    } else {
        assert(post.taken() == k + 1) by (nonlinear_arith)
            requires
                post.taken() == (post.y - pre.y0) * sy && post.y == pre.y + sy && k == (pre.y
                    - pre.y0) * sy && sy * sy == 1,
        ;
        if trig {
            assert(post.cross() == c + 1) by (nonlinear_arith)
                requires
                    post.cross() == (post.x - pre.x0) * sx && post.x == pre.x + sx && c == (pre.x
                        - pre.x0) * sx && sx * sx == 1,
            ;
        } else {
            assert(post.cross() == c);
        }
    }
    let kk = post.taken();
    let cc = post.cross();
    // The exact error relation is maintained.
    if trig {
        assert(post.error == 2 * (k + 1) * m - 2 * (c + 1) * t - t) by (nonlinear_arith)
            requires
                post.error == pre.error + 2 * m - 2 * t && pre.error == 2 * k * m - 2 * c * t - t,
        ;
    } else {
        assert(post.error == 2 * (k + 1) * m - 2 * c * t - t) by (nonlinear_arith)
            requires
                post.error == pre.error + 2 * m && pre.error == 2 * k * m - 2 * c * t - t,
        ;
    }
    // The degenerate one-point segment steps in lockstep.
    if t == 0 {
        assert(m == 0 && pre.error == 0 && c == k && k == 0);
        assert(trig);
        assert(post.error == 0 && post.cross() == post.taken());
    }
    // While the end point is not yet passed, the error bounds persist and
    // the minor axis stays within its budget.
    if t >= 1 && k + 1 <= t {
        if trig {
            assert(post.error <= -1);
            assert(post.error >= (-2) * t);
            assert(c < m) by (nonlinear_arith)
                requires
                    pre.error == 2 * k * m - 2 * c * t - t && pre.error + 2 * m >= 0 && k + 1 <= t
                        && t >= 1 && 0 <= c <= m && m <= t && 0 <= k,
            ;
        } else {
            assert(post.error <= -1);
            assert(post.error >= (-2) * t);
        }
        assert(post.cross() <= m);
    }
    // Reaching: the new major coordinate equals its end value exactly when
    // the step count has arrived.
    if major {
        assert(post.x == pre.x1 as int <==> kk == t) by (nonlinear_arith)
            requires
                kk == (post.x - pre.x0) * sx && sx * (pre.x1 - pre.x0) == t && sx * sx == 1,
        ;
    } else {
        assert(post.y == pre.y1 as int <==> kk == t) by (nonlinear_arith)
            requires
                kk == (post.y - pre.y0) * sy && sy * (pre.y1 - pre.y0) == t && sy * sy == 1,
        ;
    }
    assert(post.reached <==> k + 1 >= t);
    // The coordinates stay in (or one past) the segment's bounding box.
    if major {
        assert(post.x == pre.x0 + sx * kk && post.y == pre.y0 + sy * cc) by (nonlinear_arith)
            requires
                kk == (post.x - pre.x0) * sx && cc == (post.y - pre.y0) * sy && sx * sx == 1 && sy
                    * sy == 1,
        ;
        lemma_between(pre.x0 as int, pre.x1 as int, sx, t, kk, post.x as int);
        lemma_between(pre.y0 as int, pre.y1 as int, sy, m, cc, post.y as int);
    } else {
        assert(post.y == pre.y0 + sy * kk && post.x == pre.x0 + sx * cc) by (nonlinear_arith)
            requires
                kk == (post.y - pre.y0) * sy && cc == (post.x - pre.x0) * sx && sx * sx == 1 && sy
                    * sy == 1,
        ;
        lemma_between(pre.y0 as int, pre.y1 as int, sy, t, kk, post.y as int);
        lemma_between(pre.x0 as int, pre.x1 as int, sx, m, cc, post.x as int);
    }
}

/// `a / b` rounded up, for positive `b`.
pub open spec fn ceil_div(a: int, b: int) -> int {
    (a + b - 1) / b
}

/// The step at which the traversal first emits a pixel `c` rows past the
/// start along the minor axis (for segments whose minor axis is y), or the
/// c-th step itself when y is the major axis.
pub open spec fn first_hit_k(x0: int, y0: int, x1: int, y1: int, c: int) -> int {
    if c <= 0 {
        0
    } else if line_major_x(x0, y0, x1, y1) {
        let t = line_dx(x0, x1);
        let m = line_dx(y0, y1);
        if m <= 0 {
            0
        } else {
            ceil_div((2 * c - 1) * t, 2 * m)
        }
    } else {
        c
    }
}

/// The x coordinate of the first pixel the traversal emits on `row`.
pub open spec fn row_x(x0: int, y0: int, x1: int, y1: int, row: int) -> int {
    bres_point(x0, y0, x1, y1, first_hit_k(x0, y0, x1, y1, line_sx(y0, y1) * (row - y0))).0
}

/// Division by a positive divisor reaches `c` exactly when the dividend
/// reaches `c` times the divisor.
proof fn lemma_div_ge(a: int, b: int, c: int)
    requires
        b >= 1,
    ensures
        a / b >= c <==> a >= b * c,
{
    vstd::arithmetic::div_mod::lemma_fundamental_div_mod(a, b);
    vstd::arithmetic::div_mod::lemma_mod_bound(a, b);
    let q = a / b;
    let r = a % b;
    if a >= b * c && q < c {
        assert(b * q + r < b * c) by (nonlinear_arith)
            requires
                q <= c - 1 && 0 <= r < b && b >= 1,
        ;
    }
    if q >= c {
        assert(b * q >= b * c) by (nonlinear_arith)
            requires
                q >= c && b >= 1,
        ;
    }
}

/// `i` is at least the rounded-up quotient exactly when `i·b` reaches `a`.
proof fn lemma_ceil_div_le(i: int, a: int, b: int)
    requires
        b >= 1,
    ensures
        i >= ceil_div(a, b) <==> i * b >= a,
{
    vstd::arithmetic::div_mod::lemma_fundamental_div_mod(a + b - 1, b);
    vstd::arithmetic::div_mod::lemma_mod_bound(a + b - 1, b);
    let q = (a + b - 1) / b;
    let r = (a + b - 1) % b;
    if i >= q {
        assert(i * b >= a) by (nonlinear_arith)
            requires
                i >= q && b >= 1 && a + b - 1 == b * q + r && 0 <= r < b,
        ;
    }
    if i * b >= a {
        assert(q <= i) by (nonlinear_arith)
            requires
                i * b >= a && b >= 1 && a + b - 1 == b * q + r && 0 <= r < b,
        ;
    }
}

/// The minor offset is zero at step zero.
pub proof fn lemma_bres_j_zero(t: int, m: int)
    requires
        t >= 0,
    ensures
        bres_j(0, t, m) == 0,
{
    if t >= 1 {
        assert(2 * 0 * m == 0) by (nonlinear_arith);
        vstd::arithmetic::div_mod::lemma_fundamental_div_mod_converse(t, 2 * t, 0, t);
    }
}

/// The minor offset never decreases with the step count.
pub proof fn lemma_bres_j_mono(t: int, m: int, i: int, j: int)
    requires
        0 <= i <= j,
        0 <= m,
    ensures
        bres_j(i, t, m) <= bres_j(j, t, m),
{
    if t >= 1 {
        assert(2 * i * m + t <= 2 * j * m + t) by (nonlinear_arith)
            requires
                i <= j && m >= 0,
        ;
        vstd::arithmetic::div_mod::lemma_div_is_ordered(2 * i * m + t, 2 * j * m + t, 2 * t);
    }
}

/// The minor offset rises by at most one per step (when the minor delta
/// does not exceed the major one).
pub proof fn lemma_bres_j_step_le(t: int, m: int, k: int)
    requires
        1 <= k,
        0 <= m <= t,
    ensures
        bres_j(k - 1, t, m) <= bres_j(k, t, m) <= bres_j(k - 1, t, m) + 1,
{
    if t >= 1 {
        lemma_bres_j_mono(t, m, k - 1, k);
        let a = 2 * (k - 1) * m + t;
        let b = 2 * k * m + t;
        assert(b == a + 2 * m) by (nonlinear_arith)
            requires
                a == 2 * (k - 1) * m + t && b == 2 * k * m + t,
        ;
        vstd::arithmetic::div_mod::lemma_fundamental_div_mod(a, 2 * t);
        vstd::arithmetic::div_mod::lemma_mod_bound(a, 2 * t);
        let q = a / (2 * t);
        assert(b <= (2 * t) * (q + 2) - 1) by (nonlinear_arith)
            requires
                b == a + 2 * m && a == (2 * t) * q + a % (2 * t) && a % (2 * t) < 2 * t && m <= t
                    && t >= 1,
        ;
        assert(b / (2 * t) <= q + 1) by {
            lemma_div_ge(b, 2 * t, q + 2);
        }
    }
}

/// Consecutive emitted pixels sit on the same row or one row further (for
/// a downward segment).
pub proof fn lemma_emit_step(x0: int, y0: int, x1: int, y1: int, k: int)
    requires
        1 <= k <= line_total(x0, y0, x1, y1),
        line_sx(y0, y1) == 1,
    ensures
        bres_point(x0, y0, x1, y1, k - 1).1 <= bres_point(x0, y0, x1, y1, k).1 <= bres_point(
            x0,
            y0,
            x1,
            y1,
            k - 1,
        ).1 + 1,
{
    if line_major_x(x0, y0, x1, y1) {
        lemma_bres_j_step_le(line_dx(x0, x1), line_dx(y0, y1), k);
    }
}

/// A step that lands on a new row is the first step on that row.
pub proof fn lemma_first_hit(x0: int, y0: int, x1: int, y1: int, k: int)
    requires
        0 <= k <= line_total(x0, y0, x1, y1),
        line_sx(y0, y1) == 1,
        k == 0 || bres_point(x0, y0, x1, y1, k - 1).1 != bres_point(x0, y0, x1, y1, k).1,
    ensures
        k == first_hit_k(x0, y0, x1, y1, bres_point(x0, y0, x1, y1, k).1 - y0),
{
    let t0 = line_total(x0, y0, x1, y1);
    if line_major_x(x0, y0, x1, y1) {
        let t = line_dx(x0, x1);
        let m = line_dx(y0, y1);
        let c = bres_point(x0, y0, x1, y1, k).1 - y0;
        assert(c == bres_j(k, t, m));
        lemma_bres_j_zero(t, m);
        if k == 0 {
            assert(c == 0);
        } else {
            assert(c == 0 ==> k == 0) by {
                if c == 0 {
                    lemma_bres_j_mono(t, m, k - 1, k);
                    lemma_bres_j_mono(t, m, 0, k - 1);
                }
            }
            assert(c >= 1) by {
                lemma_bres_j_mono(t, m, 0, k);
            }
            assert(m >= 1) by {
                if m == 0 {
                    assert(2 * k * 0 == 0) by (nonlinear_arith);
                    vstd::arithmetic::div_mod::lemma_fundamental_div_mod_converse(t, 2 * t, 0, t);
                    assert(bres_j(k, t, 0) == 0);
                }
            }
            // k is the least step whose minor offset reaches c.
            assert(bres_j(k - 1, t, m) < c) by {
                lemma_bres_j_mono(t, m, k - 1, k);
            }
            lemma_div_ge(2 * k * m + t, 2 * t, c);
            lemma_div_ge(2 * (k - 1) * m + t, 2 * t, c);
            assert(2 * k * m + t >= (2 * t) * c && !(2 * (k - 1) * m + t >= (2 * t) * c));
            assert(k * (2 * m) >= (2 * c - 1) * t && !((k - 1) * (2 * m) >= (2 * c - 1) * t))
                by (nonlinear_arith)
                requires
                    2 * k * m + t >= (2 * t) * c && !(2 * (k - 1) * m + t >= (2 * t) * c),
            ;
            lemma_ceil_div_le(k, (2 * c - 1) * t, 2 * m);
            lemma_ceil_div_le(k - 1, (2 * c - 1) * t, 2 * m);
        }
    } else {
        assert(bres_point(x0, y0, x1, y1, k).1 == y0 + k);
    }
}

/// Sign and delta facts for one axis of a segment.
proof fn lemma_sign_facts(c0: int, c1: int, s: int, d: int)
    requires
        s == line_sx(c0, c1),
        d == line_dx(c0, c1),
    ensures
        s * s == 1,
        s * (c1 - c0) == d,
        c0 + s * d == c1,
        d >= 0,
{
    if c1 < c0 {
        assert(s * s == 1 && s * (c1 - c0) == d && c0 + s * d == c1) by (nonlinear_arith)
            requires
                s == -1 && d == c0 - c1,
        ;
    } else {
        assert(s * s == 1 && s * (c1 - c0) == d && c0 + s * d == c1) by (nonlinear_arith)
            requires
                s == 1 && d == c1 - c0,
        ;
    }
}

/// A coordinate `c0 + s·j` with `0 ≤ j ≤ n + 1` and `c0 + s·n == c1` lies
/// between `c0` and `c1`, at most one past the far end.
proof fn lemma_between(c0: int, c1: int, s: int, n: int, j: int, v: int)
    requires
        s == 1 || s == -1,
        0 <= n,
        0 <= j <= n + 1,
        c0 + s * n == c1,
        v == c0 + s * j,
    ensures
        j <= n ==> crate::renderer::mini(c0, c1) <= v <= crate::renderer::maxi(c0, c1),
        crate::renderer::mini(c0, c1) - 1 <= v <= crate::renderer::maxi(c0, c1) + 1,
{
    if s == 1 {
        assert(c1 == c0 + n && v == c0 + j) by (nonlinear_arith)
            requires
                s == 1 && c0 + s * n == c1 && v == c0 + s * j,
        ;
    } else {
        assert(c1 == c0 - n && v == c0 - j) by (nonlinear_arith)
            requires
                s == -1 && c0 + s * n == c1 && v == c0 + s * j,
        ;
    }
}

/// Whether the traversal of the segment never lands exactly between two
/// rows: on such segments the rounding of the two directions agrees.
pub open spec fn no_ties(x0: int, y0: int, x1: int, y1: int) -> bool {
    forall|k: int|
        0 < k < line_total(x0, y0, x1, y1) ==> #[trigger] ((2 * k * line_minor(x0, y0, x1, y1)
            + line_total(x0, y0, x1, y1)) % (2 * line_total(x0, y0, x1, y1))) != 0
}

/// Away from ties, the minor offsets of the two traversal directions are
/// complementary.
proof fn lemma_bres_j_complement(t: int, m: int, k: int)
    requires
        0 <= k <= t,
        0 <= m <= t,
        k == 0 || k == t || (2 * k * m + t) % (2 * t) != 0,
    ensures
        bres_j(k, t, m) + bres_j(t - k, t, m) == m,
{
    if t == 0 {
    } else if k == 0 {
        lemma_bres_j_zero(t, m);
        lemma_bres_j_end(t, m);
    } else if k == t {
        lemma_bres_j_zero(t, m);
        lemma_bres_j_end(t, m);
    } else {
        let a = 2 * k * m + t;
        vstd::arithmetic::div_mod::lemma_fundamental_div_mod(a, 2 * t);
        vstd::arithmetic::div_mod::lemma_mod_bound(a, 2 * t);
        let q = a / (2 * t);
        let r = a % (2 * t);
        assert(2 * (t - k) * m + t == (2 * t) * (m - q) + (2 * t - r)) by (nonlinear_arith)
            requires
                a == 2 * k * m + t && a == (2 * t) * q + r,
        ;
        vstd::arithmetic::div_mod::lemma_fundamental_div_mod_converse(
            2 * (t - k) * m + t,
            2 * t,
            m - q,
            2 * t - r,
        );
    }
}

/// Swapping a segment's end points yields the same set of traversal
/// pixels, as long as the traversal has no ties. (A tie breaks the
/// symmetry: the two directions round it to different rows.)
pub proof fn lemma_on_line_symmetric(x0: int, y0: int, x1: int, y1: int)
    requires
        no_ties(x0, y0, x1, y1),
    ensures
        forall|px: int, py: int| #[trigger]
            on_line(x0, y0, x1, y1, px, py) <==> #[trigger] on_line(x1, y1, x0, y0, px, py),
{
    assert(no_ties(x1, y1, x0, y0)) by {
        assert(line_total(x1, y1, x0, y0) == line_total(x0, y0, x1, y1) && line_minor(
            x1,
            y1,
            x0,
            y0,
        ) == line_minor(x0, y0, x1, y1));
    }
    assert forall|px: int, py: int|
        #[trigger] on_line(x0, y0, x1, y1, px, py) <==> #[trigger] on_line(
        x1,
        y1,
        x0,
        y0,
        px,
        py,
    ) by {
        if on_line(x0, y0, x1, y1, px, py) {
            lemma_on_line_one_direction(x0, y0, x1, y1, px, py);
        }
        if on_line(x1, y1, x0, y0, px, py) {
            lemma_on_line_one_direction(x1, y1, x0, y0, px, py);
        }
    }
}

/// A traversal pixel of a segment is a traversal pixel of its reversal.
proof fn lemma_on_line_one_direction(x0: int, y0: int, x1: int, y1: int, px: int, py: int)
    requires
        no_ties(x0, y0, x1, y1),
        on_line(x0, y0, x1, y1, px, py),
    ensures
        on_line(x1, y1, x0, y0, px, py),
{
    let t = line_total(x0, y0, x1, y1);
    let m = line_minor(x0, y0, x1, y1);
    let sx = line_sx(x0, x1);
    let sy = line_sx(y0, y1);
    let rsx = line_sx(x1, x0);
    let rsy = line_sx(y1, y0);
    let k = line_k(x0, y0, x1, y1, px, py);
    lemma_sign_facts(x0, x1, sx, line_dx(x0, x1));
    lemma_sign_facts(y0, y1, sy, line_dx(y0, y1));
    lemma_sign_facts(x1, x0, rsx, line_dx(x1, x0));
    lemma_sign_facts(y1, y0, rsy, line_dx(y1, y0));
    assert(line_dx(x1 as int, x0 as int) == line_dx(x0, x1) && line_dx(y1, y0) == line_dx(y0, y1));
    assert(line_total(x1, y1, x0, y0) == t && line_minor(x1, y1, x0, y0) == m);
    lemma_bres_j_zero(t, m);
    lemma_bres_j_mono(t, m, 0, k);
    lemma_bres_j_mono(t, m, 0, t - k);
    if t == 0 {
        assert(m == 0 && k == 0);
        assert(px == x0 && py == y0 && x1 == x0 && y1 == y0);
    } else if line_major_x(x0, y0, x1, y1) {
        lemma_bres_j_complement(line_dx(x0, x1), line_dx(y0, y1), k);
        assert(px == x0 + sx * k && py == y0 + sy * bres_j(k, t, m));
        assert(px == x1 + rsx * (t - k)) by (nonlinear_arith)
            requires
                t >= 1 && px == x0 + sx * k && x0 + sx * t == x1 && (sx == 1 || sx == -1) && (rsx
                    == 1 || rsx == -1) && rsx * (x0 - x1) == t && sx * (x1 - x0) == t,
        ;
        assert(py == y1 + rsy * bres_j(t - k, t, m)) by (nonlinear_arith)
            requires
                py == y0 + sy * bres_j(k, t, m) && y0 + sy * m == y1 && bres_j(k, t, m) + bres_j(
                    t - k,
                    t,
                    m,
                ) == m && (sy == 1 || sy == -1) && (rsy == 1 || rsy == -1) && rsy * (y0 - y1) == m
                    && sy * (y1 - y0) == m && 0 <= bres_j(k, t, m) && 0 <= bres_j(t - k, t, m),
        ;
        assert(rsx * (px - x1) == t - k) by (nonlinear_arith)
            requires
                px == x1 + rsx * (t - k) && (rsx == 1 || rsx == -1),
        ;
        assert(line_k(x1, y1, x0, y0, px, py) == t - k);
    } else {
        lemma_bres_j_complement(line_dx(y0, y1), line_dx(x0, x1), k);
        assert(py == y0 + sy * k && px == x0 + sx * bres_j(k, t, m));
        assert(py == y1 + rsy * (t - k)) by (nonlinear_arith)
            requires
                t >= 1 && py == y0 + sy * k && y0 + sy * t == y1 && (sy == 1 || sy == -1) && (rsy
                    == 1 || rsy == -1) && rsy * (y0 - y1) == t && sy * (y1 - y0) == t,
        ;
        assert(px == x1 + rsx * bres_j(t - k, t, m)) by (nonlinear_arith)
            requires
                px == x0 + sx * bres_j(k, t, m) && x0 + sx * m == x1 && bres_j(k, t, m) + bres_j(
                    t - k,
                    t,
                    m,
                ) == m && (sx == 1 || sx == -1) && (rsx == 1 || rsx == -1) && rsx * (x0 - x1) == m
                    && sx * (x1 - x0) == m && 0 <= bres_j(k, t, m) && 0 <= bres_j(t - k, t, m),
        ;
        assert(rsy * (py - y1) == t - k) by (nonlinear_arith)
            requires
                py == y1 + rsy * (t - k) && (rsy == 1 || rsy == -1),
        ;
        assert(line_k(x1, y1, x0, y0, px, py) == t - k);
    }
}

} // verus!
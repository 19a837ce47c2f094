//! The integer midpoint circle recurrence and the pixels it fills.
//!
//! The filled circle of radius r is scan-converted by the classic midpoint
//! walk of the first octant: starting from (0, r) with decision value
//! 3 − 2r, each step moves one column right and, when the decision value is
//! not negative, one row down. Every visited (column, row) pair contributes
//! two horizontal spans (four with their mirror rows). `circle_y` and
//! `circle_d` give the row and decision value after n steps; `circle_covers`
//! is the exact set of pixel offsets the fill writes.

use vstd::prelude::*;

verus! {

/// Absolute value.
pub open spec fn absi(a: int) -> int {
    if a < 0 {
        -a
    } else {
        a
    }
}

/// The octant row after n midpoint steps, starting at r.
pub open spec fn circle_y(r: int, n: int) -> int
    decreases n,
{
    if n <= 0 {
        r
    } else if circle_d(r, n - 1) < 0 {
        circle_y(r, n - 1)
    } else {
        circle_y(r, n - 1) - 1
    }
}

/// The decision value after n midpoint steps, starting at 3 − 2r.
pub open spec fn circle_d(r: int, n: int) -> int
    decreases n,
{
    if n <= 0 {
        3 - 2 * r
    } else {
        let x = n - 1;
        let y = circle_y(r, n - 1);
        let d = circle_d(r, n - 1);
        if d < 0 {
            d + 4 * x + 6
        } else {
            d + 4 * (x - y) + 10
        }
    }
}

/// Whether the walk is still in the first octant after n steps.
pub open spec fn circle_active(r: int, n: int) -> bool {
    circle_y(r, n) >= n
}

/// The pixel offsets filled by the circle of radius r ≥ 2 around (cx, cy):
/// for every octant step n still in the octant, the rows n and −n with half
/// width `circle_y(r, n)`, and the rows ±`circle_y(r, n)` with half
/// width n.
pub open spec fn circle_covers(r: int, cx: int, cy: int, px: int, py: int) -> bool {
    exists|n: int|
        0 <= n && #[trigger] circle_active(r, n) && ((absi(py - cy) == n && absi(px - cx)
            <= circle_y(r, n)) || (absi(py - cy) == circle_y(r, n) && absi(px - cx) <= n))
}

/// The pixels written by the first n octant steps: the center row, the row
/// pairs ±j with half width `circle_y(r, j)` for j < n, and the row pairs
/// at each value the row left behind before step j + 1 < n, with half
/// width j.
pub open spec fn circle_partial(r: int, cx: int, cy: int, n: int, px: int, py: int) -> bool {
    exists|j: int|
        0 <= j < n && ((absi(py - cy) == j && absi(px - cx) <= #[trigger] circle_y(r, j)) || (j + 1
            < n && circle_y(r, j + 1) < circle_y(r, j) && absi(py - cy) == circle_y(r, j) && absi(
            px - cx,
        ) <= j))
}

/// The octant row never rises, and falls by at most one per step.
pub proof fn lemma_circle_y_step(r: int, n: int)
    requires
        n >= 1,
    ensures
        circle_y(r, n) == circle_y(r, n - 1) || circle_y(r, n) == circle_y(r, n - 1) - 1,
{
}

/// The octant row is monotonically nonincreasing.
pub proof fn lemma_circle_y_mono(r: int, i: int, j: int)
    requires
        0 <= i <= j,
    ensures
        circle_y(r, j) <= circle_y(r, i),
    decreases j - i,
{
    if i < j {
        lemma_circle_y_mono(r, i, j - 1);
        lemma_circle_y_step(r, j);
    }
}

/// The decision value satisfies the circle equation invariant, stays below
/// `4n + 2` while the walk is in the octant, and the visited points stay
/// within a ring of width one around the circle.
pub proof fn lemma_circle_props(r: int, n: int)
    requires
        r >= 1,
        n >= 0,
    ensures
        circle_d(r, n) == 2 * (n * n + circle_y(r, n) * circle_y(r, n) - r * r) + 4 * n - 2
            * circle_y(r, n) + 3,
        circle_active(r, n) ==> circle_d(r, n) <= 4 * n + 1,
        circle_active(r, n) ==> n * n + circle_y(r, n) * circle_y(r, n) <= r * r + circle_y(r, n)
            - 1,
        circle_y(r, n) <= r,
    decreases n,
{
    if n == 0 {
        assert(circle_d(r, 0) == 3 - 2 * r);
    } else {
        lemma_circle_props(r, n - 1);
        lemma_circle_y_mono(r, 0, n);
        let x = n - 1;
        let y = circle_y(r, n - 1);
        let d = circle_d(r, n - 1);
        let y1 = circle_y(r, n);
        let d1 = circle_d(r, n);
        if d < 0 {
            assert(y1 == y && d1 == d + 4 * x + 6);
            assert(d1 == 2 * (n * n + y1 * y1 - r * r) + 4 * n - 2 * y1 + 3) by (nonlinear_arith)
                requires
                    d == 2 * (x * x + y * y - r * r) + 4 * x - 2 * y + 3 && d1 == d + 4 * x + 6
                        && y1 == y && x == n - 1,
            ;
        } else {
            assert(y1 == y - 1 && d1 == d + 4 * (x - y) + 10);
            assert(d1 == 2 * (n * n + y1 * y1 - r * r) + 4 * n - 2 * y1 + 3) by (nonlinear_arith)
                requires
                    d == 2 * (x * x + y * y - r * r) + 4 * x - 2 * y + 3 && d1 == d + 4 * (x - y)
                        + 10 && y1 == y - 1 && x == n - 1,
            ;
        }
        if circle_active(r, n) {
            // Still in the octant: the previous step was too, so its
            // decision bound carries over each branch.
            assert(y1 >= n);
            assert(y >= y1);
            assert(circle_active(r, n - 1));
            assert(d <= 4 * (n - 1) + 1);
            if d < 0 {
                assert(d1 <= 4 * n + 1);
            } else {
                assert(y1 == y - 1 && y - 1 >= n);
                assert(d1 <= 4 * n + 1);
            }
            assert(n * n + y1 * y1 <= r * r + y1 - 1) by (nonlinear_arith)
                requires
                    d1 == 2 * (n * n + y1 * y1 - r * r) + 4 * n - 2 * y1 + 3 && d1 <= 4 * n + 1,
            ;
        }
    }
}

/// The pixel offsets a whole circle fill writes: one pixel for radius one,
/// nothing for radius zero, and the octant walk's spans otherwise.
pub open spec fn circle_op_covers(r: int, cx: int, cy: int, px: int, py: int) -> bool {
    if r <= 0 {
        false
    } else if r == 1 {
        px == cx && py == cy
    } else {
        circle_covers(r, cx, cy, px, py)
    }
}

/// Rows written by the first n steps lie at offsets below n or above the
/// current octant row.
pub proof fn lemma_partial_rows(r: int, cx: int, cy: int, n: int, px: int, py: int)
    requires
        n >= 1,
        circle_partial(r, cx, cy, n, px, py),
    ensures
        absi(py - cy) <= n - 1 || absi(py - cy) >= circle_y(r, n - 1) + 1,
{
    let j = choose|j: int|
        0 <= j < n && ((absi(py - cy) == j && absi(px - cx) <= #[trigger] circle_y(r, j)) || (j + 1
            < n && circle_y(r, j + 1) < circle_y(r, j) && absi(py - cy) == circle_y(r, j) && absi(
            px - cx,
        ) <= j));
    if absi(py - cy) == j && absi(px - cx) <= circle_y(r, j) {
    } else {
        lemma_circle_y_mono(r, j + 1, n - 1);
    }
}

/// There is a step just before the octant row drops below its value at
/// step j, as long as that value is still above the row at `nend − 1`.
proof fn lemma_find_drop(r: int, j: int, nend: int)
    requires
        0 <= j <= nend - 1,
        circle_y(r, j) > circle_y(r, nend - 1),
    ensures
        exists|jj: int|
            j <= jj && jj + 1 <= nend - 1 && #[trigger] circle_y(r, jj) == circle_y(r, j)
                && circle_y(r, jj + 1) < circle_y(r, jj),
    decreases nend - j,
{
    assert(j < nend - 1);
    if circle_y(r, j + 1) < circle_y(r, j) {
        assert(circle_y(r, j) == circle_y(r, j));
    } else {
        lemma_circle_y_step(r, j + 1);
        lemma_find_drop(r, j + 1, nend);
        let jj = choose|jj: int|
            j + 1 <= jj && jj + 1 <= nend - 1 && #[trigger] circle_y(r, jj) == circle_y(r, j + 1)
                && circle_y(r, jj + 1) < circle_y(r, jj);
        assert(circle_y(r, jj) == circle_y(r, j));
    }
}

/// Every covered pixel is written by the first `nend` steps or by the last
/// row pair at offset `circle_y(r, nend − 1)` with half width `nend − 1`.
pub proof fn lemma_cover_to_partial(r: int, cx: int, cy: int, nend: int, px: int, py: int)
    requires
        r >= 2,
        nend >= 1,
        circle_y(r, nend) < nend,
        circle_active(r, nend - 1),
        circle_covers(r, cx, cy, px, py),
    ensures
        circle_partial(r, cx, cy, nend, px, py) || (absi(py - cy) == circle_y(r, nend - 1) && absi(
            px - cx,
        ) <= nend - 1),
{
    let n = choose|n: int|
        0 <= n && #[trigger] circle_active(r, n) && ((absi(py - cy) == n && absi(px - cx)
            <= circle_y(r, n)) || (absi(py - cy) == circle_y(r, n) && absi(px - cx) <= n));
    assert(n < nend) by {
        if n >= nend {
            lemma_circle_y_mono(r, nend, n);
        }
    }
    if absi(py - cy) == n && absi(px - cx) <= circle_y(r, n) {
        assert(circle_partial(r, cx, cy, nend, px, py));
    } else {
        lemma_circle_y_mono(r, n, nend - 1);
        if circle_y(r, n) == circle_y(r, nend - 1) {
            assert(absi(px - cx) <= nend - 1);
        } else {
            lemma_find_drop(r, n, nend);
            let jj = choose|jj: int|
                n <= jj && jj + 1 <= nend - 1 && #[trigger] circle_y(r, jj) == circle_y(r, n)
                    && circle_y(r, jj + 1) < circle_y(r, jj);
            assert(circle_partial(r, cx, cy, nend, px, py));
        }
    }
}

/// Conversely, the first `nend` octant steps and the last row pair write
/// only covered pixels.
pub proof fn lemma_partial_to_cover(r: int, cx: int, cy: int, nend: int, px: int, py: int)
    requires
        r >= 2,
        nend >= 1,
        circle_active(r, nend - 1),
    ensures
        circle_partial(r, cx, cy, nend, px, py) ==> circle_covers(r, cx, cy, px, py),
        (absi(py - cy) == circle_y(r, nend - 1) && absi(px - cx) <= nend - 1) ==> circle_covers(
            r,
            cx,
            cy,
            px,
            py,
        ),
{
    if circle_partial(r, cx, cy, nend, px, py) {
        let j = choose|j: int|
            0 <= j < nend && ((absi(py - cy) == j && absi(px - cx) <= #[trigger] circle_y(r, j)) || (
            j + 1 < nend && circle_y(r, j + 1) < circle_y(r, j) && absi(py - cy) == circle_y(r, j)
                && absi(px - cx) <= j));
        lemma_circle_y_mono(r, j, nend - 1);
        assert(circle_active(r, j));
    }
    if absi(py - cy) == circle_y(r, nend - 1) && absi(px - cx) <= nend - 1 {
        assert(circle_active(r, nend - 1));
        assert(circle_covers(r, cx, cy, px, py));
    }
}

/// One octant step extends the written pixels by the pair of rows left
/// behind (when the row dropped) and the pair of rows at the new column.
pub proof fn lemma_partial_step(r: int, cx: int, cy: int, n: int, px: int, py: int)
    requires
        r >= 2,
        n >= 1,
        circle_active(r, n),
    ensures
        circle_partial(r, cx, cy, n + 1, px, py) <==> (circle_partial(r, cx, cy, n, px, py) || (
        circle_y(r, n) < circle_y(r, n - 1) && absi(py - cy) == circle_y(r, n - 1) && absi(px - cx)
            <= n - 1) || (absi(py - cy) == n && absi(px - cx) <= circle_y(r, n))),
{
    lemma_circle_y_step(r, n);
    if circle_partial(r, cx, cy, n + 1, px, py) {
        let j = choose|j: int|
            0 <= j < n + 1 && ((absi(py - cy) == j && absi(px - cx) <= #[trigger] circle_y(r, j))
                || (j + 1 < n + 1 && circle_y(r, j + 1) < circle_y(r, j) && absi(py - cy)
                == circle_y(r, j) && absi(px - cx) <= j));
        if absi(py - cy) == j && absi(px - cx) <= circle_y(r, j) {
            if j < n {
                assert(circle_partial(r, cx, cy, n, px, py));
            }
        } else {
            if j + 1 < n {
                assert(circle_partial(r, cx, cy, n, px, py));
            }
        }
    }
    if circle_partial(r, cx, cy, n, px, py) {
        let j = choose|j: int|
            0 <= j < n && ((absi(py - cy) == j && absi(px - cx) <= #[trigger] circle_y(r, j)) || (j
                + 1 < n && circle_y(r, j + 1) < circle_y(r, j) && absi(py - cy) == circle_y(r, j)
                && absi(px - cx) <= j));
        assert(circle_partial(r, cx, cy, n + 1, px, py));
    }
    if circle_y(r, n) < circle_y(r, n - 1) && absi(py - cy) == circle_y(r, n - 1) && absi(px - cx)
        <= n - 1 {
        assert(circle_partial(r, cx, cy, n + 1, px, py));
    }
    if absi(py - cy) == n && absi(px - cx) <= circle_y(r, n) {
        assert(circle_partial(r, cx, cy, n + 1, px, py));
    }
}

/// Pixels already written by the first n steps lie on none of the rows the
/// n-th step writes.
pub proof fn lemma_partial_step_disjoint(r: int, cx: int, cy: int, n: int, px: int, py: int)
    requires
        r >= 2,
        n >= 1,
        circle_active(r, n),
        circle_partial(r, cx, cy, n, px, py),
    ensures
        absi(py - cy) != n,
        circle_y(r, n) < circle_y(r, n - 1) ==> absi(py - cy) != circle_y(r, n - 1),
{
    lemma_partial_rows(r, cx, cy, n, px, py);
    lemma_circle_y_step(r, n);
}

/// Every pixel the circle fill covers lies within `r² + r − 1` of the
/// center in squared distance, strictly inside the circle of radius r + 1.
pub proof fn lemma_circle_in_ring(r: int, cx: int, cy: int, px: int, py: int)
    requires
        r >= 2,
        circle_covers(r, cx, cy, px, py),
    ensures
        (px - cx) * (px - cx) + (py - cy) * (py - cy) <= r * r + r - 1,
        (px - cx) * (px - cx) + (py - cy) * (py - cy) < (r + 1) * (r + 1),
{
    let n = choose|n: int|
        0 <= n && #[trigger] circle_active(r, n) && ((absi(py - cy) == n && absi(px - cx)
            <= circle_y(r, n)) || (absi(py - cy) == circle_y(r, n) && absi(px - cx) <= n));
    lemma_circle_props(r, n);
    let y = circle_y(r, n);
    let dx = px - cx;
    let dy = py - cy;
    assert(n * n + y * y <= r * r + y - 1);
    assert(y <= r);
    assert(dx * dx + dy * dy <= n * n + y * y) by (nonlinear_arith)
        requires
            (absi(dy) == n && absi(dx) <= y) || (absi(dy) == y && absi(dx) <= n),
    ;
    assert(r * r + r - 1 < (r + 1) * (r + 1)) by (nonlinear_arith)
        requires
            r >= 2,
    ;
}

} // verus!
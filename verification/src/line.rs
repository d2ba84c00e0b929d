//! Integer line tracing between two grid cells (Bresenham's algorithm).

use vstd::prelude::*;
use vstd::arithmetic::div_mod::lemma_fundamental_div_mod;
use vstd::arithmetic::div_mod::lemma_fundamental_div_mod_converse;
use vstd::arithmetic::div_mod::lemma_mod_pos_bound;
use vstd::arithmetic::div_mod::lemma_div_is_ordered;

verus! {

/// Distance between two coordinates on one axis.
pub open spec fn axis_dist(a: int, b: int) -> int {
    if a <= b { b - a } else { a - b }
}

/// The coordinate reached after `k` unit steps from `from` towards `to`.
pub open spec fn advance(from: int, to: int, k: int) -> int {
    if from <= to { from + k } else { from - k }
}

/// `i * minor / major`, rounded to the nearest integer, halves rounded up.
pub open spec fn half_up_share(i: int, minor: int, major: int) -> int {
    if major <= 0 { 0 } else { (2 * minor * i + major) / (2 * major) }
}

/// An executable cell as a pair of mathematical integers.
pub open spec fn cell_at(c: (i32, i32)) -> (int, int) {
    (c.0 as int, c.1 as int)
}

/// Number of points on the traced line from `(x0, y0)` to `(x1, y1)`.
pub open spec fn line_len(x0: int, y0: int, x1: int, y1: int) -> int {
    let dx = axis_dist(x0, x1);
    let dy = axis_dist(y0, y1);
    if dx >= dy { dx + 1 } else { dy + 1 }
}

/// The `i`-th point of the traced line: the major axis advances one unit per
/// point and the minor axis follows the ideal line, rounded half up.
pub open spec fn line_point(x0: int, y0: int, x1: int, y1: int, i: int) -> (int, int) {
    let dx = axis_dist(x0, x1);
    let dy = axis_dist(y0, y1);
    if dx >= dy {
        (advance(x0, x1, i), advance(y0, y1, half_up_share(i, dy, dx)))
    } else {
        (advance(x0, x1, half_up_share(i, dx, dy)), advance(y0, y1, i))
    }
}

/// The quotient bounds of the rounded share.
proof fn lemma_share_bounds(i: int, m: int, big: int)
    requires
        big > 0,
        i >= 0,
        m >= 0,
    ensures
        2 * big * half_up_share(i, m, big) <= 2 * m * i + big,
        2 * m * i + big < 2 * big * (half_up_share(i, m, big) + 1),
        half_up_share(i, m, big) >= 0,
{
    let a = 2 * m * i + big;
    let d = 2 * big;
    lemma_fundamental_div_mod(a, d);
    lemma_mod_pos_bound(a, d);
    let q = a / d;
    assert(q == half_up_share(i, m, big));
    assert(a == d * q + a % d);
    assert(2 * big * q <= a) by (nonlinear_arith)
        requires a == d * q + a % d, a % d >= 0, d == 2 * big;
    assert(a < 2 * big * (q + 1)) by (nonlinear_arith)
        requires a == d * q + a % d, a % d < d, d == 2 * big;
    assert(q >= 0) by (nonlinear_arith)
        requires a < 2 * big * (q + 1), a >= 0, big > 0;
}

/// Each further point moves the rounded share by zero or one, and by one
/// exactly when the ideal line has passed the half-way mark.
proof fn lemma_share_step(i: int, m: int, big: int)
    requires
        big > 0,
        0 <= m <= big,
        i >= 0,
    ensures
        half_up_share(i + 1, m, big) == half_up_share(i, m, big) + (if big * (2
            * half_up_share(i, m, big) + 1) <= 2 * m * (i + 1) {
            1int
        } else {
            0int
        }),
{
    let q = half_up_share(i, m, big);
    lemma_share_bounds(i, m, big);
    let a2 = 2 * m * (i + 1) + big;
    let d = 2 * big;
    assert(a2 == 2 * m * i + big + 2 * m) by (nonlinear_arith)
        requires a2 == 2 * m * (i + 1) + big;
    if big * (2 * q + 1) <= 2 * m * (i + 1) {
        assert(a2 >= d * (q + 1)) by (nonlinear_arith)
            requires big * (2 * q + 1) <= 2 * m * (i + 1), a2 == 2 * m * (i + 1) + big, d == 2 * big;
        assert(a2 < d * (q + 1) + d) by (nonlinear_arith)
            requires 2 * m * i + big < 2 * big * (q + 1), a2 == 2 * m * i + big + 2 * m,
                d == 2 * big, m <= big;
        assert((q + 1) * d == d * (q + 1)) by (nonlinear_arith);
        lemma_fundamental_div_mod_converse(a2, d, q + 1, a2 - (q + 1) * d);
    } else {
        assert(a2 < d * (q + 1)) by (nonlinear_arith)
            requires big * (2 * q + 1) > 2 * m * (i + 1), a2 == 2 * m * (i + 1) + big, d == 2 * big;
        assert(a2 >= d * q) by (nonlinear_arith)
            requires 2 * big * q <= 2 * m * i + big, a2 == 2 * m * i + big + 2 * m, d == 2 * big,
                m >= 0;
        assert(q * d == d * q) by (nonlinear_arith);
        assert(d * (q + 1) == d * q + d) by (nonlinear_arith);
        lemma_fundamental_div_mod_converse(a2, d, q, a2 - q * d);
    }
}

/// The share starts at zero, stays within `0..=m` up to `big`, and reaches `m` at `big`.
proof fn lemma_share_range(i: int, m: int, big: int)
    requires
        big > 0,
        0 <= m,
        0 <= i <= big,
    ensures
        half_up_share(0, m, big) == 0,
        half_up_share(big, m, big) == m,
        0 <= half_up_share(i, m, big) <= m,
{
    let d = 2 * big;
    assert(2 * m * 0 + big == 0 * d + big) by (nonlinear_arith) requires d == 2 * big;
    lemma_fundamental_div_mod_converse(2 * m * 0 + big, d, 0, big);
    assert(2 * m * big + big == m * d + big) by (nonlinear_arith) requires d == 2 * big;
    lemma_fundamental_div_mod_converse(2 * m * big + big, d, m, big);
    assert(2 * m * i + big <= 2 * m * big + big) by (nonlinear_arith)
        requires 0 <= m, i <= big;
    lemma_div_is_ordered(2 * m * i + big, 2 * m * big + big, d);
    lemma_share_bounds(i, m, big);
}

/// Law: consecutive points of a traced line are neighbours in the eight
/// directions, and each step advances along the major axis towards the end.
pub proof fn lemma_line_steps_are_adjacent(x0: int, y0: int, x1: int, y1: int, i: int)
    requires
        0 <= i,
        i + 1 < line_len(x0, y0, x1, y1),
    ensures
        ({
            let p = line_point(x0, y0, x1, y1, i);
            let q = line_point(x0, y0, x1, y1, i + 1);
            &&& axis_dist(p.0, q.0) <= 1
            &&& axis_dist(p.1, q.1) <= 1
            &&& (axis_dist(p.0, q.0) == 1 || axis_dist(p.1, q.1) == 1)
            &&& axis_dist(q.0, x1) <= axis_dist(p.0, x1)
            &&& axis_dist(q.1, y1) <= axis_dist(p.1, y1)
        }),
{
    let dx = axis_dist(x0, x1);
    let dy = axis_dist(y0, y1);
    if dx >= dy {
        lemma_share_step(i, dy, dx);
        lemma_share_range(i, dy, dx);
        lemma_share_range(i + 1, dy, dx);
    } else {
        lemma_share_step(i, dx, dy);
        lemma_share_range(i, dx, dy);
        lemma_share_range(i + 1, dx, dy);
    }
}

/// Traces the grid cells on the segment from `(x0, y0)` to `(x1, y1)`,
/// both ends included.
pub fn bresenham_line(x0: i32, y0: i32, x1: i32, y1: i32) -> (points: Vec<(i32, i32)>)
    ensures
        points@.len() == line_len(x0 as int, y0 as int, x1 as int, y1 as int),
        forall|j: int|
            0 <= j < points@.len() ==> cell_at(#[trigger] points@[j])
                == line_point(x0 as int, y0 as int, x1 as int, y1 as int, j),
        points@[0] == (x0, y0),
        points@[points@.len() - 1] == (x1, y1),
{
    let ghost gx0 = x0 as int;
    let ghost gy0 = y0 as int;
    let ghost gx1 = x1 as int;
    let ghost gy1 = y1 as int;
    let ghost big_x = axis_dist(gx0, gx1);
    let ghost big_y = axis_dist(gy0, gy1);
    let ghost n = if big_x >= big_y { big_x } else { big_y };
    let ghost x_major = big_x >= big_y;

    let mut points: Vec<(i32, i32)> = Vec::new();
    let dx: i64 = if x0 <= x1 { x1 as i64 - x0 as i64 } else { x0 as i64 - x1 as i64 };
    let dy: i64 = if y0 <= y1 { y0 as i64 - y1 as i64 } else { y1 as i64 - y0 as i64 };
    let sx: i32 = if x0 < x1 { 1 } else { -1 };
    let sy: i32 = if y0 < y1 { 1 } else { -1 };
    let mut err: i64 = dx + dy;
    let mut x: i32 = x0;
    let mut y: i32 = y0;
    let ghost mut kx: int = 0;
    let ghost mut ky: int = 0;
    proof {
        if x_major {
            if big_x > 0 { lemma_share_range(0, big_y, big_x); }
        } else {
            lemma_share_range(0, big_x, big_y);
        }
        assert(err == big_x * (1 + ky) - big_y * (1 + kx)) by (nonlinear_arith)
            requires err == big_x - big_y, kx == 0, ky == 0;
    }

    loop
        invariant_except_break
            points@.len() <= n,
            x_major ==> kx == points@.len(),
            !x_major ==> ky == points@.len(),
        invariant
            dx == big_x,
            dy == -big_y,
            big_x == axis_dist(gx0, gx1),
            big_y == axis_dist(gy0, gy1),
            gx0 == x0, gy0 == y0, gx1 == x1, gy1 == y1,
            n == (if big_x >= big_y { big_x } else { big_y }),
            x_major == (big_x >= big_y),
            sx == (if x0 < x1 { 1i32 } else { -1i32 }),
            sy == (if y0 < y1 { 1i32 } else { -1i32 }),
            0 <= kx <= big_x,
            0 <= ky <= big_y,
            x == advance(gx0, gx1, kx),
            y == advance(gy0, gy1, ky),
            x_major ==> ky == half_up_share(kx, big_y, big_x),
            !x_major ==> kx == half_up_share(ky, big_x, big_y),
            err == big_x * (1 + ky) - big_y * (1 + kx),
            -2 * big_y <= err <= 2 * big_x,
            forall|j: int|
                0 <= j < points@.len() ==> cell_at(#[trigger] points@[j])
                    == line_point(gx0, gy0, gx1, gy1, j),
        ensures
            points@.len() == n + 1,
            forall|j: int|
                0 <= j < points@.len() ==> cell_at(#[trigger] points@[j])
                    == line_point(gx0, gy0, gx1, gy1, j),
        decreases n - points@.len(),
    {
        let ghost i = points@.len() as int;
        assert(cell_at((x, y)) == line_point(gx0, gy0, gx1, gy1, i));
        points.push((x, y));
        assert(points@[i] == (x, y));
        if x == x1 && y == y1 {
            proof {
                if x_major {
                    assert(kx == big_x);
                } else {
                    assert(ky == big_y);
                }
            }
            break;
        }
        proof {
            if x_major {
                if kx == big_x {
                    lemma_share_range(big_x, big_y, big_x);
                    assert(false);
                }
                assert(i < n);
            } else {
                if ky == big_y {
                    lemma_share_range(big_y, big_x, big_y);
                    assert(false);
                }
                assert(i < n);
            }
        }
        let e2: i64 = 2 * err;
        let ghost old_err = err;
        let ghost old_kx = kx;
        let ghost old_ky = ky;
        if dx >= -dy {
            proof {
                lemma_share_bounds(i, big_y, big_x);
                lemma_share_step(i, big_y, big_x);
                lemma_share_range(i + 1, big_y, big_x);
                assert(2 * err >= -big_y) by (nonlinear_arith)
                    requires
                        err == big_x * (1 + ky) - big_y * (1 + kx),
                        kx == i,
                        2 * big_y * i + big_x < 2 * big_x * (ky + 1),
                        big_x >= big_y;
                assert((2 * err <= big_x) == (big_x * (2 * ky + 1) <= 2 * big_y * (i + 1)))
                    by (nonlinear_arith)
                    requires err == big_x * (1 + ky) - big_y * (1 + kx), kx == i;
            }
        } else {
            proof {
                lemma_share_bounds(i, big_x, big_y);
                lemma_share_step(i, big_x, big_y);
                lemma_share_range(i + 1, big_x, big_y);
                assert(2 * err <= big_x) by (nonlinear_arith)
                    requires
                        err == big_x * (1 + ky) - big_y * (1 + kx),
                        ky == i,
                        2 * big_y * (kx + 1) > 2 * big_x * i + big_y,
                        big_y > big_x;
                assert((2 * err >= -big_y) == (big_y * (2 * kx + 1) <= 2 * big_x * (i + 1)))
                    by (nonlinear_arith)
                    requires err == big_x * (1 + ky) - big_y * (1 + kx), ky == i;
            }
        }
        if e2 >= dy {
            proof {
                if kx == big_x {
                    assert(false);
                }
            }
            err = err + dy;
            x = x + sx;
            proof {
                kx = kx + 1;
                assert(err == big_x * (1 + ky) - big_y * (1 + kx)) by (nonlinear_arith)
                    requires
                        old_err == big_x * (1 + ky) - big_y * (1 + old_kx),
                        kx == old_kx + 1,
                        err == old_err - big_y;
            }
        }
        if e2 <= dx {
            proof {
                if ky == big_y {
                    assert(false);
                }
            }
            let ghost mid_err = err;
            err = err + dx;
            y = y + sy;
            proof {
                ky = ky + 1;
                assert(err == big_x * (1 + ky) - big_y * (1 + kx)) by (nonlinear_arith)
                    requires
                        mid_err == big_x * (1 + old_ky) - big_y * (1 + kx),
                        ky == old_ky + 1,
                        err == mid_err + big_x;
            }
        }
    }
    proof {
        lemma_share_range(0, 0, 1);
    }
    assert(cell_at(points@[0]) == line_point(gx0, gy0, gx1, gy1, 0));
    let ghost last = points@.len() - 1;
    assert(cell_at(points@[last]) == line_point(gx0, gy0, gx1, gy1, n));
    proof {
        if x_major {
            if big_x > 0 {
                lemma_share_range(0, big_y, big_x);
                lemma_share_range(big_x, big_y, big_x);
            }
        } else {
            lemma_share_range(0, big_x, big_y);
            lemma_share_range(big_y, big_x, big_y);
        }
    }
    points
}

/// Law: the `i`-th point of a traced line moves `i` cells from the start
/// along the axis on which the end lies farther, stays between the two ends
/// on both axes, and on the other axis is the cell nearest the straight line
/// between the ends, an exact half-way point going to the cell nearer the end.
pub proof fn lemma_line_follows_ideal(x0: int, y0: int, x1: int, y1: int, i: int)
    requires
        0 <= i < line_len(x0, y0, x1, y1),
    ensures
        ({
            let p = line_point(x0, y0, x1, y1, i);
            let dx = if x0 <= x1 { x1 - x0 } else { x0 - x1 };
            let dy = if y0 <= y1 { y1 - y0 } else { y0 - y1 };
            let ax = if x0 <= p.0 { p.0 - x0 } else { x0 - p.0 };
            let ay = if y0 <= p.1 { p.1 - y0 } else { y0 - p.1 };
            &&& (x0 <= x1 ==> x0 <= p.0 <= x1)
            &&& (x1 < x0 ==> x1 <= p.0 <= x0)
            &&& (y0 <= y1 ==> y0 <= p.1 <= y1)
            &&& (y1 < y0 ==> y1 <= p.1 <= y0)
            &&& (dx == 0 && dy == 0 ==> p == (x0, y0))
            &&& (dx >= dy && dx > 0 ==> ax == i && -dx < 2 * dx * ay - 2 * dy * i <= dx)
            &&& (dy > dx ==> ay == i && -dy < 2 * dy * ax - 2 * dx * i <= dy)
        }),
{
    let dx = axis_dist(x0, x1);
    let dy = axis_dist(y0, y1);
    let p = line_point(x0, y0, x1, y1, i);
    if dx >= dy {
        if dx > 0 {
            lemma_share_bounds(i, dy, dx);
            lemma_share_range(i, dy, dx);
            let q = half_up_share(i, dy, dx);
            assert(p == (advance(x0, x1, i), advance(y0, y1, q)));
            assert(axis_dist(y0, p.1) == q);
            assert(axis_dist(x0, p.0) == i);
            assert(-dx < 2 * dx * q - 2 * dy * i <= dx) by (nonlinear_arith)
                requires 2 * dx * q <= 2 * dy * i + dx, 2 * dy * i + dx < 2 * dx * (q + 1);
        } else {
            assert(half_up_share(i, dy, dx) == 0);
        }
    } else {
        lemma_share_bounds(i, dx, dy);
        lemma_share_range(i, dx, dy);
        let q = half_up_share(i, dx, dy);
        assert(p == (advance(x0, x1, q), advance(y0, y1, i)));
        assert(axis_dist(x0, p.0) == q);
        assert(axis_dist(y0, p.1) == i);
        assert(-dy < 2 * dy * q - 2 * dx * i <= dy) by (nonlinear_arith)
            requires 2 * dy * q <= 2 * dx * i + dy, 2 * dx * i + dy < 2 * dy * (q + 1);
    }
}

} // verus!

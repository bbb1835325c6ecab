//! Uniform cubic B-spline curves, rendered as one continuous polyline.
//!
//! Each window of four consecutive control points contributes one curve
//! segment, sampled at 32 equally spaced parameter values t = k/32. The
//! basis has coefficient 1/6; a sample coordinate is the exact rational
//! value of the basis polynomial, truncated toward zero. Consecutive
//! samples are joined by the line rasterizer, carrying the previous
//! sample across window boundaries, so the whole control sequence
//! renders as a single connected polyline. Fewer than four control
//! points paint nothing.

use crate::canvas::{lemma_painted_union, painted};
use crate::geom::{Color, Point};
use crate::line::{line_i64, line_pts};
use vstd::arithmetic::div_mod::{
    lemma_div_is_ordered, lemma_div_pos_is_pos, lemma_fundamental_div_mod_converse,
};
use vstd::prelude::*;

verus! {

/// Division truncated toward zero, for a positive divisor.
pub open spec fn tdiv(n: int, d: int) -> int {
    if n >= 0 {
        n / d
    } else {
        -((-n) / d)
    }
}

/// The spline basis polynomial at t = k/32, scaled by 6 * 32^3 = 196608
/// so that every term is an integer: 196608 times the exact coordinate.
pub open spec fn spline_num(p0: int, p1: int, p2: int, p3: int, k: int) -> int {
    32768 * (p0 + 4 * p1 + p2) + 1024 * k * (3 * p2 - 3 * p0) + 32 * (k * k) * (3 * p0 - 6 * p1
        + 3 * p2) + (k * k * k) * (3 * p1 - p0 - 3 * p2 + p3)
}

/// One coordinate of the spline at parameter k/32 of the window
/// (p0, p1, p2, p3): the exact rational value truncated toward zero.
pub open spec fn spline_coord(p0: int, p1: int, p2: int, p3: int, k: int) -> int {
    tdiv(spline_num(p0, p1, p2, p3, k), 196608)
}

/// Sample j of the whole curve: window j / 32, parameter (j % 32) / 32.
pub open spec fn spline_sample(pts: Seq<Point>, j: int) -> (int, int) {
    let i = j / 32;
    let k = j % 32;
    (
        spline_coord(
            pts[i].x as int,
            pts[i + 1].x as int,
            pts[i + 2].x as int,
            pts[i + 3].x as int,
            k,
        ),
        spline_coord(
            pts[i].y as int,
            pts[i + 1].y as int,
            pts[i + 2].y as int,
            pts[i + 3].y as int,
            k,
        ),
    )
}

/// The pixels of the polyline segments joining samples with index below
/// m.
pub open spec fn spline_segs(pts: Seq<Point>, m: int) -> Set<(int, int)> {
    Set::new(
        |p: (int, int)|
            exists|t: int|
                #![trigger spline_sample(pts, t)]
                1 <= t < m && line_pts(spline_sample(pts, t - 1), spline_sample(pts, t)).contains(
                    p,
                ),
    )
}

/// The pixel set of the whole curve: fewer than four control points give
/// the empty set, else the polyline through all 32 * (n - 3) samples.
pub open spec fn spline_pts(pts: Seq<Point>) -> Set<(int, int)> {
    if pts.len() < 4 {
        Set::empty()
    } else {
        spline_segs(pts, 32 * (pts.len() - 3))
    }
}

/// The magnitude of a product is bounded by the product of the bounds.
proof fn lemma_mul_abs(u: int, v: int, ub: int, vb: int)
    requires
        -ub <= u <= ub,
        -vb <= v <= vb,
        0 <= ub,
        0 <= vb,
    ensures
        -(ub * vb) <= u * v <= ub * vb,
{
    assert(-(ub * vb) <= u * v <= ub * vb) by (nonlinear_arith)
        requires
            -ub <= u <= ub,
            -vb <= v <= vb,
            0 <= ub,
            0 <= vb,
    ;
}

/// Truncating division keeps a scaled bound: |n| <= 196608 * b gives
/// |n / 196608| <= b.
proof fn lemma_tdiv_bound(n: int, b: int)
    requires
        0 <= b,
        -196608 * b <= n <= 196608 * b,
    ensures
        -b <= tdiv(n, 196608) <= b,
{
    assert(196608 * b == b * 196608 + 0) by (nonlinear_arith);
    lemma_fundamental_div_mod_converse(196608 * b, 196608, b, 0);
    if n >= 0 {
        lemma_div_pos_is_pos(n, 196608);
        lemma_div_is_ordered(n, 196608 * b, 196608);
    } else {
        lemma_div_pos_is_pos(-n, 196608);
        lemma_div_is_ordered(-n, 196608 * b, 196608);
    }
}

/// Flat sample index j = 32 * i + k splits back into window i and
/// parameter k.
proof fn lemma_sample_index(i: int, k: int)
    requires
        0 <= i,
        0 <= k < 32,
    ensures
        (32 * i + k) / 32 == i,
        (32 * i + k) % 32 == k,
{
    assert(32 * i + k == i * 32 + k) by (nonlinear_arith);
    lemma_fundamental_div_mod_converse(32 * i + k, 32, i, k);
}

/// Joining the next pair of samples extends the polyline pixels by that
/// segment.
proof fn lemma_segs_extend(pts: Seq<Point>, j: int)
    requires
        1 <= j,
    ensures
        spline_segs(pts, j).union(
            line_pts(spline_sample(pts, j - 1), spline_sample(pts, j)),
        ) == spline_segs(pts, j + 1),
{
    let seg = line_pts(spline_sample(pts, j - 1), spline_sample(pts, j));
    let lhs = spline_segs(pts, j).union(seg);
    let rhs = spline_segs(pts, j + 1);
    assert forall|p: (int, int)| lhs.contains(p) implies rhs.contains(p) by {
        if spline_segs(pts, j).contains(p) {
            let t = choose|t: int|
                #![trigger spline_sample(pts, t)]
                1 <= t < j && line_pts(spline_sample(pts, t - 1), spline_sample(pts, t)).contains(
                    p,
                );
            assert(1 <= t < j + 1 && line_pts(
                spline_sample(pts, t - 1),
                spline_sample(pts, t),
            ).contains(p));
        } else {
            assert(1 <= j < j + 1 && line_pts(
                spline_sample(pts, j - 1),
                spline_sample(pts, j),
            ).contains(p));
        }
    }
    assert forall|p: (int, int)| rhs.contains(p) implies lhs.contains(p) by {
        let t = choose|t: int|
            #![trigger spline_sample(pts, t)]
            1 <= t < j + 1 && line_pts(spline_sample(pts, t - 1), spline_sample(pts, t)).contains(
                p,
            );
        if t < j {
            assert(spline_segs(pts, j).contains(p));
        }
    }
    assert(lhs =~= rhs);
}

/// One coordinate of sample k of a window, by exact integer evaluation
/// of the scaled basis polynomial, truncated toward zero.
fn spline_coord_at(p0: i64, p1: i64, p2: i64, p3: i64, k: i64) -> (r: i64)
    requires
        -0x8000_0000 <= p0 <= 0x8000_0000,
        -0x8000_0000 <= p1 <= 0x8000_0000,
        -0x8000_0000 <= p2 <= 0x8000_0000,
        -0x8000_0000 <= p3 <= 0x8000_0000,
        0 <= k < 32,
    ensures
        r as int == spline_coord(p0 as int, p1 as int, p2 as int, p3 as int, k as int),
        -0x4000_0000_0000 <= r <= 0x4000_0000_0000,
{
    proof {
        assert(0 <= k * k < 1024) by (nonlinear_arith)
            requires
                0 <= k < 32,
        ;
        assert(0 <= (k * k) * k < 32768) by (nonlinear_arith)
            requires
                0 <= k < 32,
        ;
        lemma_mul_abs(1024 * k, 3 * p2 - 3 * p0, 0x8000, 0x10_0000_0000);
        lemma_mul_abs(32 * (k * k), 3 * p0 - 6 * p1 + 3 * p2, 0x8000, 0x10_0000_0000);
        lemma_mul_abs((k * k) * k, 3 * p1 - p0 - 3 * p2 + p3, 0x8000, 0x10_0000_0000);
    }
    let k2: i64 = k * k;
    let k3: i64 = k2 * k;
    let t0: i64 = 32768 * (p0 + 4 * p1 + p2);
    let t1: i64 = 1024 * k * (3 * p2 - 3 * p0);
    let t2: i64 = 32 * k2 * (3 * p0 - 6 * p1 + 3 * p2);
    let t3: i64 = k3 * (3 * p1 - p0 - 3 * p2 + p3);
    let num: i64 = t0 + t1 + t2 + t3;
    proof {
        lemma_tdiv_bound(num as int, 0x4000_0000_0000);
    }
    if num >= 0 {
        num / 196608
    } else {
        -((-num) / 196608)
    }
}

/// Paints the uniform cubic B-spline through the control points as one
/// continuous polyline: 32 samples per window of four consecutive
/// control points, consecutive samples joined by the line rasterizer,
/// with the previous sample carried across window boundaries. Fewer than
/// four control points paint nothing.
pub fn draw_uniform_cubic_b_spline(
    buffer: &mut Vec<u8>,
    size: Point,
    points: &Vec<Point>,
    color: Color,
)
    ensures
        final(buffer)@ == painted(old(buffer)@, size, spline_pts(points@), color),
        points@.len() < 4 ==> final(buffer)@ == old(buffer)@,
{
    let ghost b0 = buffer@;
    if points.len() < 4 {
        proof {
            assert(painted(b0, size, spline_pts(points@), color) =~= b0);
        }
        return ;
    }
    let n_win: usize = points.len() - 3;
    let mut px: i64 = 0;
    let mut py: i64 = 0;
    let mut i: usize = 0;
    proof {
        assert(painted(b0, size, spline_segs(points@, 0), color) =~= b0);
    }
    while i < n_win
        invariant
            b0 == old(buffer)@,
            points@.len() >= 4,
            points@.len() <= usize::MAX,
            n_win == points@.len() - 3,
            0 <= i <= n_win,
            buffer@ == painted(b0, size, spline_segs(points@, 32 * (i as int)), color),
            i > 0 ==> (px as int, py as int) == spline_sample(points@, 32 * (i as int) - 1),
            -0x4000_0000_0000 <= px <= 0x4000_0000_0000,
            -0x4000_0000_0000 <= py <= 0x4000_0000_0000,
        decreases n_win - i,
    {
        let p0 = points[i];
        let p1 = points[i + 1];
        let p2 = points[i + 2];
        let p3 = points[i + 3];
        let mut k: usize = 0;
        while k < 32
            invariant
                b0 == old(buffer)@,
                points@.len() >= 4,
                points@.len() <= usize::MAX,
                n_win == points@.len() - 3,
                0 <= i < n_win,
                0 <= k <= 32,
                p0 == points@[i as int],
                p1 == points@[i as int + 1],
                p2 == points@[i as int + 2],
                p3 == points@[i as int + 3],
                buffer@ == painted(
                    b0,
                    size,
                    spline_segs(points@, 32 * (i as int) + k as int),
                    color,
                ),
                32 * (i as int) + k as int > 0 ==> (px as int, py as int) == spline_sample(
                    points@,
                    32 * (i as int) + k as int - 1,
                ),
                -0x4000_0000_0000 <= px <= 0x4000_0000_0000,
                -0x4000_0000_0000 <= py <= 0x4000_0000_0000,
            decreases 32 - k,
        {
            let ghost j = 32 * (i as int) + k as int;
            proof {
                lemma_sample_index(i as int, k as int);
            }
            let sx: i64 = spline_coord_at(
                p0.x as i64,
                p1.x as i64,
                p2.x as i64,
                p3.x as i64,
                k as i64,
            );
            let sy: i64 = spline_coord_at(
                p0.y as i64,
                p1.y as i64,
                p2.y as i64,
                p3.y as i64,
                k as i64,
            );
            assert((sx as int, sy as int) == spline_sample(points@, j));
            if i > 0 || k > 0 {
                line_i64(buffer, size, px, py, sx, sy, color);
                proof {
                    lemma_painted_union(
                        b0,
                        size,
                        spline_segs(points@, j),
                        line_pts(spline_sample(points@, j - 1), spline_sample(points@, j)),
                        color,
                    );
                    lemma_segs_extend(points@, j);
                }
            } else {
                proof {
                    assert(spline_segs(points@, 1) =~= spline_segs(points@, 0));
                }
            }
            px = sx;
            py = sy;
            k = k + 1;
        }
        i = i + 1;
    }
    proof {
        assert(spline_segs(points@, 32 * (n_win as int)) == spline_pts(points@));
    }
}

} // verus!

//! Straight line segments, rasterized with the integer incremental-error
//! (Bresenham) algorithm, symmetric in both axes.
//!
//! The pixel set of a segment has a closed form: one pixel per step along
//! the major axis, the minor coordinate advancing by an exact quotient.
//! [`line_pt`] gives pixel k of that walk, [`line_pts`] the whole set, and
//! `draw_line` paints exactly that set.

use crate::canvas::{
    can_write, chan, lemma_painted_at, lemma_painted_union, one_pt, painted, pix_off, plot,
};
use crate::geom::{Color, Point};
use vstd::arithmetic::div_mod::{
    lemma_div_is_ordered, lemma_div_pos_is_pos, lemma_fundamental_div_mod,
    lemma_fundamental_div_mod_converse, lemma_mod_bound,
};
use vstd::arithmetic::mul::{lemma_mul_inequality, lemma_mul_nonnegative};
use vstd::prelude::*;

verus! {

/// Absolute horizontal distance between the endpoints.
pub open spec fn l_dx(s: (int, int), e: (int, int)) -> int {
    if e.0 >= s.0 {
        e.0 - s.0
    } else {
        s.0 - e.0
    }
}

/// Absolute vertical distance between the endpoints.
pub open spec fn l_dy(s: (int, int), e: (int, int)) -> int {
    if e.1 >= s.1 {
        e.1 - s.1
    } else {
        s.1 - e.1
    }
}

/// Horizontal step direction: +1 when the segment runs rightward, else -1.
pub open spec fn l_sx(s: (int, int), e: (int, int)) -> int {
    if s.0 < e.0 {
        1
    } else {
        -1
    }
}

/// Vertical step direction: +1 when the segment runs downward, else -1.
pub open spec fn l_sy(s: (int, int), e: (int, int)) -> int {
    if s.1 < e.1 {
        1
    } else {
        -1
    }
}

/// Number of steps of the walk: the larger of the two axis distances.
/// The walk visits this many pixels plus one.
pub open spec fn line_n(s: (int, int), e: (int, int)) -> int {
    if l_dx(s, e) > l_dy(s, e) {
        l_dx(s, e)
    } else {
        l_dy(s, e)
    }
}

/// How many minor-axis steps have happened after k major-axis steps, for
/// a walk with the given axis distances (0 <= minor <= major). This is the
/// closed form of the incremental-error rule with the error term seeded
/// to major/2.
pub open spec fn stepped(k: int, minor: int, major: int) -> int {
    (k * minor + major - 1 - major / 2) / major
}

/// The running remainder behind [`stepped`]: the error term at step k is
/// a fixed offset of this value.
pub open spec fn step_mod(k: int, minor: int, major: int) -> int {
    (k * minor + major - 1 - major / 2) % major
}

/// Pixel k (0 <= k <= line_n) of the walk from s to e.
pub open spec fn line_pt(s: (int, int), e: (int, int), k: int) -> (int, int) {
    let dx = l_dx(s, e);
    let dy = l_dy(s, e);
    if dx > dy {
        (s.0 + l_sx(s, e) * k, s.1 + l_sy(s, e) * stepped(k, dy, dx))
    } else if dy > 0 {
        (s.0 + l_sx(s, e) * stepped(k, dx, dy), s.1 + l_sy(s, e) * k)
    } else {
        s
    }
}

/// The error term before step k of the walk, as the algorithm keeps it.
pub open spec fn line_err(s: (int, int), e: (int, int), k: int) -> int {
    let dx = l_dx(s, e);
    let dy = l_dy(s, e);
    if dx > dy {
        dx - 1 - step_mod(k, dy, dx)
    } else if dy > 0 {
        step_mod(k, dx, dy) + 1 - dy
    } else {
        0
    }
}

/// The pixels of the walk with index below m.
pub open spec fn line_pts_upto(s: (int, int), e: (int, int), m: int) -> Set<(int, int)> {
    Set::new(|p: (int, int)| exists|k: int| 0 <= k < m && p == line_pt(s, e, k))
}

/// The pixel set of the whole segment from s to e, endpoints included.
pub open spec fn line_pts(s: (int, int), e: (int, int)) -> Set<(int, int)> {
    line_pts_upto(s, e, line_n(s, e) + 1)
}

/// Quotient and remainder both step by a fixed amount when the dividend
/// grows by at most the divisor.
proof fn lemma_div_step(a: int, b: int, d: int)
    requires
        1 <= d,
        0 <= b <= d,
        0 <= a,
    ensures
        (a + b) / d == a / d + (if a % d + b >= d {
            1int
        } else {
            0int
        }),
        (a + b) % d == a % d + b - (if a % d + b >= d {
            d
        } else {
            0int
        }),
{
    lemma_fundamental_div_mod(a, d);
    lemma_mod_bound(a, d);
    let q = a / d;
    let r = a % d;
    assert(q * d == d * q) by (nonlinear_arith);
    if r + b >= d {
        assert((q + 1) * d == d * q + d) by (nonlinear_arith);
        lemma_fundamental_div_mod_converse(a + b, d, q + 1, r + b - d);
    } else {
        lemma_fundamental_div_mod_converse(a + b, d, q, r + b);
    }
}

/// Multiplying by a sign negates or keeps the other factor.
proof fn lemma_sign_mul(sgn: int, v: int)
    requires
        sgn == 1 || sgn == -1,
    ensures
        sgn == 1 ==> sgn * v == v,
        sgn == -1 ==> sgn * v == -v,
{
    if sgn == 1 {
        assert(sgn * v == v) by (nonlinear_arith)
            requires
                sgn == 1,
        ;
    } else {
        assert(sgn * v == -v) by (nonlinear_arith)
            requires
                sgn == -1,
        ;
    }
}

/// The numerator behind [`stepped`] is nonnegative and its offset term
/// lies in [0, major).
proof fn lemma_step_num(k: int, minor: int, major: int)
    requires
        1 <= major,
        0 <= minor <= major,
        0 <= k,
    ensures
        0 <= major - 1 - major / 2 < major,
        0 <= k * minor,
        0 <= k * minor + major - 1 - major / 2,
{
    lemma_mul_nonnegative(k, minor);
}

/// [`stepped`] starts at zero, never exceeds minor, and reaches exactly
/// minor after major steps.
proof fn lemma_stepped_bounds(k: int, minor: int, major: int)
    requires
        1 <= major,
        0 <= minor <= major,
        0 <= k <= major,
    ensures
        0 <= stepped(k, minor, major) <= minor,
        k == 0 ==> stepped(k, minor, major) == 0,
        k == major ==> stepped(k, minor, major) == minor,
        step_mod(k, minor, major) == k * minor + major - 1 - major / 2 - major * stepped(
            k,
            minor,
            major,
        ),
        0 <= step_mod(k, minor, major) < major,
{
    lemma_step_num(k, minor, major);
    let c = major - 1 - major / 2;
    let a = k * minor + c;
    lemma_div_pos_is_pos(a, major);
    lemma_mul_inequality(k, major, minor);
    assert(major * minor + c == minor * major + c) by (nonlinear_arith);
    lemma_fundamental_div_mod_converse(major * minor + c, major, minor, c);
    lemma_div_is_ordered(a, major * minor + c, major);
    if k == 0 {
        assert(c == 0 * major + c) by (nonlinear_arith);
        lemma_fundamental_div_mod_converse(c, major, 0, c);
    }
    lemma_fundamental_div_mod(a, major);
    lemma_mod_bound(a, major);
}

/// One step of the walk: how [`stepped`] and [`step_mod`] change from k
/// to k + 1.
proof fn lemma_stepped_step(k: int, minor: int, major: int)
    requires
        1 <= major,
        0 <= minor <= major,
        0 <= k,
    ensures
        stepped(k + 1, minor, major) == stepped(k, minor, major) + (if step_mod(k, minor, major)
            + minor >= major {
            1int
        } else {
            0int
        }),
        step_mod(k + 1, minor, major) == step_mod(k, minor, major) + minor - (if step_mod(
            k,
            minor,
            major,
        ) + minor >= major {
            major
        } else {
            0int
        }),
{
    lemma_step_num(k, minor, major);
    let c = major - 1 - major / 2;
    let a = k * minor + c;
    assert((k + 1) * minor == k * minor + minor) by (nonlinear_arith);
    lemma_div_step(a, minor, major);
}

/// The walk starts at s, with the error term at its seeded value.
pub proof fn lemma_line_start(s: (int, int), e: (int, int))
    ensures
        0 <= line_n(s, e),
        line_pt(s, e, 0) == s,
        line_err(s, e, 0) == (if l_dx(s, e) > l_dy(s, e) {
            l_dx(s, e) / 2
        } else {
            -(l_dy(s, e) / 2)
        }),
{
    let dx = l_dx(s, e);
    let dy = l_dy(s, e);
    if dx > dy {
        lemma_stepped_bounds(0, dy, dx);
    } else if dy > 0 {
        lemma_stepped_bounds(0, dx, dy);
    }
}

/// The walk ends exactly at e.
pub proof fn lemma_line_end(s: (int, int), e: (int, int))
    ensures
        line_pt(s, e, line_n(s, e)) == e,
{
    let dx = l_dx(s, e);
    let dy = l_dy(s, e);
    if dx > dy {
        lemma_stepped_bounds(dx, dy, dx);
        lemma_sign_mul(l_sx(s, e), dx);
        lemma_sign_mul(l_sy(s, e), stepped(dx, dy, dx));
    } else if dy > 0 {
        lemma_stepped_bounds(dy, dx, dy);
        lemma_sign_mul(l_sx(s, e), stepped(dy, dx, dy));
        lemma_sign_mul(l_sy(s, e), dy);
    }
}

/// Every pixel of the walk lies inside the bounding box of the two
/// endpoints, and the error term lies in [-dy, dx].
pub proof fn lemma_line_pt_bounds(s: (int, int), e: (int, int), k: int)
    requires
        0 <= k <= line_n(s, e),
    ensures
        line_pt(s, e, k).0 == s.0 + l_sx(s, e) * (if l_dx(s, e) > l_dy(s, e) {
            k
        } else if l_dy(s, e) > 0 {
            stepped(k, l_dx(s, e), l_dy(s, e))
        } else {
            0int
        }),
        s.0 - l_dx(s, e) <= line_pt(s, e, k).0 <= s.0 + l_dx(s, e),
        s.1 - l_dy(s, e) <= line_pt(s, e, k).1 <= s.1 + l_dy(s, e),
        -l_dy(s, e) <= line_err(s, e, k) <= l_dx(s, e),
{
    let dx = l_dx(s, e);
    let dy = l_dy(s, e);
    let sx = l_sx(s, e);
    let sy = l_sy(s, e);
    assert(sx == 1 || sx == -1);
    assert(sy == 1 || sy == -1);
    if dx > dy {
        lemma_stepped_bounds(k, dy, dx);
        let j = stepped(k, dy, dx);
        lemma_sign_mul(sx, k);
        lemma_sign_mul(sy, j);
    } else if dy > 0 {
        lemma_stepped_bounds(k, dx, dy);
        let j = stepped(k, dx, dy);
        lemma_sign_mul(sy, k);
        lemma_sign_mul(sx, j);
    }
}

/// One step of the walk, phrased exactly as the incremental-error rule
/// applies it: advance x when the error exceeds -dx, advance y when it is
/// below dy, and update the error by the same tests.
pub proof fn lemma_line_step(s: (int, int), e: (int, int), k: int)
    requires
        0 <= k < line_n(s, e),
    ensures
        line_pt(s, e, k + 1).0 == line_pt(s, e, k).0 + (if line_err(s, e, k) > -l_dx(s, e) {
            l_sx(s, e)
        } else {
            0int
        }),
        line_pt(s, e, k + 1).1 == line_pt(s, e, k).1 + (if line_err(s, e, k) < l_dy(s, e) {
            l_sy(s, e)
        } else {
            0int
        }),
        line_err(s, e, k + 1) == line_err(s, e, k) + (if line_err(s, e, k) > -l_dx(s, e) {
            -l_dy(s, e)
        } else {
            0int
        }) + (if line_err(s, e, k) < l_dy(s, e) {
            l_dx(s, e)
        } else {
            0int
        }),
{
    let dx = l_dx(s, e);
    let dy = l_dy(s, e);
    let sx = l_sx(s, e);
    let sy = l_sy(s, e);
    assert(sx == 1 || sx == -1);
    assert(sy == 1 || sy == -1);
    if dx > dy {
        lemma_stepped_bounds(k, dy, dx);
        lemma_stepped_step(k, dy, dx);
        let j = stepped(k, dy, dx);
        // err(k) = dx - 1 - m, so err(k) >= 0 > -dx and err(k) < dy iff m + dy >= dx
        lemma_sign_mul(sx, k);
        lemma_sign_mul(sx, k + 1);
        lemma_sign_mul(sy, j);
        lemma_sign_mul(sy, j + 1);
    } else {
        // dy >= dx and dy > 0 since k < line_n
        lemma_stepped_bounds(k, dx, dy);
        lemma_stepped_step(k, dx, dy);
        let j = stepped(k, dx, dy);
        // err(k) = m + 1 - dy <= 0 < dy, and err(k) > -dx iff m + dx >= dy
        lemma_sign_mul(sy, k);
        lemma_sign_mul(sy, k + 1);
        lemma_sign_mul(sx, j);
        lemma_sign_mul(sx, j + 1);
    }
}

/// Adding pixel k of the walk to the pixels before it gives the pixels
/// before k + 1.
proof fn lemma_upto_extend(s: (int, int), e: (int, int), m: int)
    requires
        0 <= m,
    ensures
        line_pts_upto(s, e, m).union(
            one_pt(line_pt(s, e, m).0, line_pt(s, e, m).1),
        ) == line_pts_upto(s, e, m + 1),
{
    let q = line_pt(s, e, m);
    let lhs = line_pts_upto(s, e, m).union(one_pt(q.0, q.1));
    let rhs = line_pts_upto(s, e, m + 1);
    assert forall|p: (int, int)| lhs.contains(p) implies rhs.contains(p) by {
        if line_pts_upto(s, e, m).contains(p) {
            let k = choose|k: int| 0 <= k < m && p == line_pt(s, e, k);
            assert(0 <= k < m + 1 && p == line_pt(s, e, k));
        } else {
            assert(p == q);
            assert(0 <= m < m + 1 && p == line_pt(s, e, m));
        }
    }
    assert forall|p: (int, int)| rhs.contains(p) implies lhs.contains(p) by {
        let k = choose|k: int| 0 <= k < m + 1 && p == line_pt(s, e, k);
        if k < m {
            assert(line_pts_upto(s, e, m).contains(p));
        } else {
            assert(p == (q.0, q.1));
        }
    }
    assert(lhs =~= rhs);
}

/// Both endpoints of a segment belong to its pixel set: a caller that can
/// write them sees both painted (endpoint inclusion).
pub proof fn lemma_line_endpoints(s: (int, int), e: (int, int))
    ensures
        line_pts(s, e).contains(s),
        line_pts(s, e).contains(e),
{
    lemma_line_start(s, e);
    lemma_line_end(s, e);
    let n = line_n(s, e);
    assert(0 <= 0 < n + 1 && s == line_pt(s, e, 0));
    assert(0 <= n < n + 1 && e == line_pt(s, e, n));
}

/// Endpoint inclusion at the buffer level: after a segment is painted,
/// each endpoint that is legally writable holds the colour's four
/// channel bytes.
pub proof fn lemma_line_endpoints_painted(
    b: Seq<u8>,
    size: Point,
    s: (int, int),
    e: (int, int),
    color: Color,
)
    ensures
        can_write(size, b.len() as int, s.0, s.1) ==> forall|j: int|
            0 <= j < 4 ==> painted(b, size, line_pts(s, e), color)[pix_off(size, s.0, s.1) + j]
                == chan(color, j),
        can_write(size, b.len() as int, e.0, e.1) ==> forall|j: int|
            0 <= j < 4 ==> painted(b, size, line_pts(s, e), color)[pix_off(size, e.0, e.1) + j]
                == chan(color, j),
{
    lemma_line_endpoints(s, e);
    if can_write(size, b.len() as int, s.0, s.1) {
        lemma_painted_at(b, size, line_pts(s, e), color, s.0, s.1);
    }
    if can_write(size, b.len() as int, e.0, e.1) {
        lemma_painted_at(b, size, line_pts(s, e), color, e.0, e.1);
    }
}

/// Pixel k of a horizontal walk: the y coordinate never moves.
proof fn lemma_line_pt_horizontal(s: (int, int), e: (int, int), k: int)
    requires
        s.1 == e.1,
        0 <= k <= line_n(s, e),
    ensures
        line_pt(s, e, k) == (if s.0 < e.0 {
            (s.0 + k, s.1)
        } else {
            (s.0 - k, s.1)
        }),
{
    let dx = l_dx(s, e);
    if dx > 0 {
        lemma_stepped_bounds(k, 0, dx);
        lemma_sign_mul(l_sx(s, e), k);
        lemma_sign_mul(l_sy(s, e), stepped(k, 0, dx));
    }
}

/// The pixel set of a horizontal segment is exactly the row span between
/// its endpoints, both included.
pub proof fn lemma_line_horizontal(s: (int, int), e: (int, int))
    requires
        s.1 == e.1,
    ensures
        line_pts(s, e) == Set::new(
            |p: (int, int)|
                p.1 == s.1 && (if s.0 <= e.0 {
                    s.0 <= p.0 <= e.0
                } else {
                    e.0 <= p.0 <= s.0
                }),
        ),
{
    let n = line_n(s, e);
    let rhs = Set::new(
        |p: (int, int)|
            p.1 == s.1 && (if s.0 <= e.0 {
                s.0 <= p.0 <= e.0
            } else {
                e.0 <= p.0 <= s.0
            }),
    );
    assert forall|p: (int, int)| line_pts(s, e).contains(p) implies rhs.contains(p) by {
        let k = choose|k: int| 0 <= k < n + 1 && p == line_pt(s, e, k);
        lemma_line_pt_horizontal(s, e, k);
    }
    assert forall|p: (int, int)| rhs.contains(p) implies line_pts(s, e).contains(p) by {
        let k = if s.0 < e.0 {
            p.0 - s.0
        } else {
            s.0 - p.0
        };
        lemma_line_pt_horizontal(s, e, k);
        assert(0 <= k < n + 1 && p == line_pt(s, e, k));
    }
    assert(line_pts(s, e) =~= rhs);
}

/// Walking from e to s visits the same pixels in reverse order, for
/// horizontal, vertical and exact-diagonal segments.
proof fn lemma_line_pt_reverse(s: (int, int), e: (int, int), k: int)
    requires
        s.0 == e.0 || s.1 == e.1 || l_dx(s, e) == l_dy(s, e),
        0 <= k <= line_n(s, e),
    ensures
        line_n(e, s) == line_n(s, e),
        line_pt(e, s, line_n(s, e) - k) == line_pt(s, e, k),
{
    let dx = l_dx(s, e);
    let dy = l_dy(s, e);
    let n = line_n(s, e);
    if s.0 == e.0 && s.1 == e.1 {
    } else if s.1 == e.1 {
        lemma_line_pt_horizontal(s, e, k);
        lemma_line_pt_horizontal(e, s, n - k);
    } else if s.0 == e.0 {
        // vertical: y-major with dx == 0, the x coordinate never moves
        lemma_stepped_bounds(k, 0, dy);
        lemma_stepped_bounds(n - k, 0, dy);
        lemma_sign_mul(l_sy(s, e), k);
        lemma_sign_mul(l_sy(e, s), n - k);
        lemma_sign_mul(l_sx(s, e), stepped(k, 0, dy));
        lemma_sign_mul(l_sx(e, s), stepped(n - k, 0, dy));
    } else {
        // exact diagonal: both coordinates step every iteration
        lemma_step_num(k, dx, dy);
        let c = dy - 1 - dy / 2;
        lemma_fundamental_div_mod_converse(k * dy + c, dy, k, c);
        lemma_step_num(n - k, dx, dy);
        lemma_fundamental_div_mod_converse((n - k) * dy + c, dy, n - k, c);
        assert(stepped(k, dx, dy) == k);
        assert(stepped(n - k, l_dx(e, s), l_dy(e, s)) == n - k);
        lemma_sign_mul(l_sx(s, e), k);
        lemma_sign_mul(l_sy(s, e), k);
        lemma_sign_mul(l_sx(e, s), n - k);
        lemma_sign_mul(l_sy(e, s), n - k);
    }
}

/// Rasterizing a segment in one direction or the other paints the same
/// pixel set, for horizontal, vertical and exact-diagonal segments. (For
/// other slopes the two walks can round the minor coordinate differently
/// and need not agree.)
pub proof fn lemma_line_symmetric(s: (int, int), e: (int, int))
    requires
        s.0 == e.0 || s.1 == e.1 || l_dx(s, e) == l_dy(s, e),
    ensures
        line_pts(s, e) == line_pts(e, s),
{
    let n = line_n(s, e);
    lemma_line_pt_reverse(s, e, 0);
    assert forall|p: (int, int)| line_pts(s, e).contains(p) implies line_pts(e, s).contains(p) by {
        let k = choose|k: int| 0 <= k < n + 1 && p == line_pt(s, e, k);
        lemma_line_pt_reverse(s, e, k);
        assert(0 <= n - k < line_n(e, s) + 1 && p == line_pt(e, s, n - k));
    }
    assert forall|p: (int, int)| line_pts(e, s).contains(p) implies line_pts(s, e).contains(p) by {
        let k = choose|k: int| 0 <= k < line_n(e, s) + 1 && p == line_pt(e, s, k);
        lemma_line_pt_reverse(s, e, n - k);
        assert(0 <= n - k < n + 1 && p == line_pt(s, e, n - k));
    }
    assert(line_pts(s, e) =~= line_pts(e, s));
}

/// Paints the straight segment between the given endpoints (inclusive)
/// onto the canvas; every pixel write is bounds-checked.
pub(crate) fn line_i64(
    buffer: &mut Vec<u8>,
    size: Point,
    x0: i64,
    y0: i64,
    x1: i64,
    y1: i64,
    color: Color,
)
    requires
        -0x4000_0000_0000 <= x0 <= 0x4000_0000_0000,
        -0x4000_0000_0000 <= y0 <= 0x4000_0000_0000,
        -0x4000_0000_0000 <= x1 <= 0x4000_0000_0000,
        -0x4000_0000_0000 <= y1 <= 0x4000_0000_0000,
    ensures
        final(buffer)@ == painted(
            old(buffer)@,
            size,
            line_pts((x0 as int, y0 as int), (x1 as int, y1 as int)),
            color,
        ),
{
    let ghost s = (x0 as int, y0 as int);
    let ghost e = (x1 as int, y1 as int);
    let ghost b0 = buffer@;
    let dx: i64 = if x1 >= x0 {
        x1 - x0
    } else {
        x0 - x1
    };
    let dy: i64 = if y1 >= y0 {
        y1 - y0
    } else {
        y0 - y1
    };
    let sx: i64 = if x0 < x1 {
        1
    } else {
        -1
    };
    let sy: i64 = if y0 < y1 {
        1
    } else {
        -1
    };
    let n: i64 = if dx > dy {
        dx
    } else {
        dy
    };
    let mut err: i64 = if dx > dy {
        dx / 2
    } else {
        -(dy / 2)
    };
    let mut x: i64 = x0;
    let mut y: i64 = y0;
    let mut k: i64 = 0;
    proof {
        lemma_line_start(s, e);
    }
    plot(buffer, size, x, y, color);
    proof {
        assert(line_pts_upto(s, e, 1) =~= one_pt(s.0, s.1)) by {
            assert forall|p: (int, int)| line_pts_upto(s, e, 1).contains(p) implies p == (
                s.0,
                s.1,
            ) by {
                let k0 = choose|k0: int| 0 <= k0 < 1 && p == line_pt(s, e, k0);
                assert(k0 == 0);
            }
            assert(line_pt(s, e, 0) == s);
            assert(line_pts_upto(s, e, 1).contains((s.0, s.1)));
        }
    }
    while k < n
        invariant
            dx == l_dx(s, e),
            dy == l_dy(s, e),
            sx == l_sx(s, e),
            sy == l_sy(s, e),
            n == line_n(s, e),
            0 <= k <= n,
            -0x4000_0000_0000 <= s.0 <= 0x4000_0000_0000,
            -0x4000_0000_0000 <= s.1 <= 0x4000_0000_0000,
            -0x4000_0000_0000 <= e.0 <= 0x4000_0000_0000,
            -0x4000_0000_0000 <= e.1 <= 0x4000_0000_0000,
            (x as int, y as int) == line_pt(s, e, k as int),
            err as int == line_err(s, e, k as int),
            buffer@ == painted(b0, size, line_pts_upto(s, e, k as int + 1), color),
        decreases n - k,
    {
        proof {
            lemma_line_step(s, e, k as int);
            lemma_line_pt_bounds(s, e, k as int);
            lemma_line_pt_bounds(s, e, k as int + 1);
        }
        let e2: i64 = err;
        if e2 > -dx {
            err = err - dy;
            x = x + sx;
        }
        if e2 < dy {
            err = err + dx;
            y = y + sy;
        }
        k = k + 1;
        let ghost before = line_pts_upto(s, e, k as int);
        plot(buffer, size, x, y, color);
        proof {
            lemma_painted_union(b0, size, before, one_pt(x as int, y as int), color);
            lemma_upto_extend(s, e, k as int);
        }
    }
}

/// Paints the straight segment from `start` to `end` (both inclusive)
/// with `color`. Rasterizes one pixel per step along the major axis;
/// every write is bounds-checked against the canvas and the buffer.
pub fn draw_line(buffer: &mut Vec<u8>, size: Point, start: Point, end: Point, color: Color)
    ensures
        final(buffer)@ == painted(
            old(buffer)@,
            size,
            line_pts((start.x as int, start.y as int), (end.x as int, end.y as int)),
            color,
        ),
{
    line_i64(
        buffer,
        size,
        start.x as i64,
        start.y as i64,
        end.x as i64,
        end.y as i64,
        color,
    );
}

} // verus!

//! Filled triangles, rasterized by a bounding-box scan with an exact
//! integer barycentric containment test.
//!
//! With d the doubled signed area of (a, b, c), the barycentric weights
//! of a point p are cross(b, c, p) / d, cross(c, a, p) / d and
//! cross(a, b, p) / d (they sum to 1). p lies inside iff all three are
//! non-negative, i.e. iff the three edge cross products all carry the
//! sign of d. Integer arithmetic makes the test exact, with no
//! cancellation. A degenerate triangle (collinear vertices, d == 0)
//! contains no point at all.
//!
//! The inclusive test double-fills pixels on an edge shared by two
//! adjacent triangles; this rasterizer draws isolated triangles and does
//! not promise gap-free tiling.

use crate::canvas::{lemma_painted_union, one_pt, painted, plot};
use crate::geom::{Color, Point};
use vstd::prelude::*;

verus! {

/// Twice the signed area of the triangle (a, b, c); zero iff the three
/// points are collinear.
pub open spec fn cross(a: (int, int), b: (int, int), c: (int, int)) -> int {
    (b.0 - a.0) * (c.1 - a.1) - (b.1 - a.1) * (c.0 - a.0)
}

/// p lies inside the triangle (a, b, c): all three barycentric weights
/// are non-negative. A degenerate triangle contains no point.
pub open spec fn tri_inside(a: (int, int), b: (int, int), c: (int, int), p: (int, int)) -> bool {
    let d = cross(a, b, c);
    if d > 0 {
        cross(a, b, p) >= 0 && cross(b, c, p) >= 0 && cross(c, a, p) >= 0
    } else if d < 0 {
        cross(a, b, p) <= 0 && cross(b, c, p) <= 0 && cross(c, a, p) <= 0
    } else {
        false
    }
}

/// The smallest of three values.
pub open spec fn min3(a: int, b: int, c: int) -> int {
    if a <= b && a <= c {
        a
    } else if b <= c {
        b
    } else {
        c
    }
}

/// The largest of three values.
pub open spec fn max3(a: int, b: int, c: int) -> int {
    if a >= b && a >= c {
        a
    } else if b >= c {
        b
    } else {
        c
    }
}

/// The pixels of the filled triangle: the points of the inclusive
/// bounding box of the vertices that pass the containment test.
pub open spec fn tri_pts(a: (int, int), b: (int, int), c: (int, int)) -> Set<(int, int)> {
    Set::new(
        |p: (int, int)|
            min3(a.0, b.0, c.0) <= p.0 <= max3(a.0, b.0, c.0) && min3(a.1, b.1, c.1) <= p.1
                <= max3(a.1, b.1, c.1) && tri_inside(a, b, c, p),
    )
}

/// The triangle pixels before scan position (x, y): whole rows above y,
/// plus the part of row y left of x.
pub open spec fn tri_scan(
    a: (int, int),
    b: (int, int),
    c: (int, int),
    y: int,
    x: int,
) -> Set<(int, int)> {
    Set::new(
        |p: (int, int)|
            tri_pts(a, b, c).contains(p) && (p.1 < y || (p.1 == y && p.0 < x)),
    )
}

/// The product of two values below 2^33 in magnitude stays below 2^66.
proof fn lemma_mul_bound(u: int, v: int)
    requires
        -0x2_0000_0000 <= u <= 0x2_0000_0000,
        -0x2_0000_0000 <= v <= 0x2_0000_0000,
    ensures
        -0x4_0000_0000_0000_0000 <= u * v <= 0x4_0000_0000_0000_0000,
{
    assert(-0x4_0000_0000_0000_0000 <= u * v <= 0x4_0000_0000_0000_0000) by (nonlinear_arith)
        requires
            -0x2_0000_0000 <= u <= 0x2_0000_0000,
            -0x2_0000_0000 <= v <= 0x2_0000_0000,
    ;
}

/// A degenerate triangle — three collinear vertices, doubled area zero —
/// has an empty pixel set: it paints nothing.
pub proof fn lemma_degenerate_triangle(a: (int, int), b: (int, int), c: (int, int))
    requires
        cross(a, b, c) == 0,
    ensures
        tri_pts(a, b, c) == Set::<(int, int)>::empty(),
{
    assert(tri_pts(a, b, c) =~= Set::empty());
}

/// Paints the filled triangle with vertices a, b and c: every pixel of
/// the inclusive bounding box that passes the exact integer barycentric
/// containment test. Collinear vertices paint nothing.
pub fn draw_filled_triangle(
    buffer: &mut Vec<u8>,
    size: Point,
    a: Point,
    b: Point,
    c: Point,
    color: Color,
)
    ensures
        final(buffer)@ == painted(
            old(buffer)@,
            size,
            tri_pts(
                (a.x as int, a.y as int),
                (b.x as int, b.y as int),
                (c.x as int, c.y as int),
            ),
            color,
        ),
        cross(
            (a.x as int, a.y as int),
            (b.x as int, b.y as int),
            (c.x as int, c.y as int),
        ) == 0 ==> final(buffer)@ == old(buffer)@,
{
    let ghost va = (a.x as int, a.y as int);
    let ghost vb = (b.x as int, b.y as int);
    let ghost vc = (c.x as int, c.y as int);
    let ghost b0 = buffer@;
    let ax: i64 = a.x as i64;
    let ay: i64 = a.y as i64;
    let bx: i64 = b.x as i64;
    let by: i64 = b.y as i64;
    let cx: i64 = c.x as i64;
    let cy: i64 = c.y as i64;
    proof {
        lemma_mul_bound(bx - ax, cy - ay);
        lemma_mul_bound(by - ay, cx - ax);
    }
    let d: i128 = ((bx - ax) as i128) * ((cy - ay) as i128) - ((by - ay) as i128) * ((cx
        - ax) as i128);
    if d == 0 {
        proof {
            assert(painted(b0, size, tri_pts(va, vb, vc), color) =~= b0);
        }
        return ;
    }
    let x_min: i64 = if ax <= bx && ax <= cx {
        ax
    } else if bx <= cx {
        bx
    } else {
        cx
    };
    let x_max: i64 = if ax >= bx && ax >= cx {
        ax
    } else if bx >= cx {
        bx
    } else {
        cx
    };
    let y_min: i64 = if ay <= by && ay <= cy {
        ay
    } else if by <= cy {
        by
    } else {
        cy
    };
    let y_max: i64 = if ay >= by && ay >= cy {
        ay
    } else if by >= cy {
        by
    } else {
        cy
    };
    let mut y: i64 = y_min;
    proof {
        assert(painted(b0, size, tri_scan(va, vb, vc, y as int, x_min as int), color) =~= b0);
    }
    while y <= y_max
        invariant
            va == (a.x as int, a.y as int),
            vb == (b.x as int, b.y as int),
            vc == (c.x as int, c.y as int),
            b0 == old(buffer)@,
            ax == a.x as i64 && ay == a.y as i64,
            bx == b.x as i64 && by == b.y as i64,
            cx == c.x as i64 && cy == c.y as i64,
            d as int == cross(va, vb, vc),
            d != 0,
            x_min as int == min3(va.0, vb.0, vc.0),
            x_max as int == max3(va.0, vb.0, vc.0),
            y_min as int == min3(va.1, vb.1, vc.1),
            y_max as int == max3(va.1, vb.1, vc.1),
            y_min <= y <= y_max + 1,
            buffer@ == painted(b0, size, tri_scan(va, vb, vc, y as int, x_min as int), color),
        decreases y_max - y + 1,
    {
        let mut x: i64 = x_min;
        while x <= x_max
            invariant
                va == (a.x as int, a.y as int),
                vb == (b.x as int, b.y as int),
                vc == (c.x as int, c.y as int),
                b0 == old(buffer)@,
                ax == a.x as i64 && ay == a.y as i64,
                bx == b.x as i64 && by == b.y as i64,
                cx == c.x as i64 && cy == c.y as i64,
                d as int == cross(va, vb, vc),
                d != 0,
                x_min as int == min3(va.0, vb.0, vc.0),
                x_max as int == max3(va.0, vb.0, vc.0),
                y_min as int == min3(va.1, vb.1, vc.1),
                y_max as int == max3(va.1, vb.1, vc.1),
                y_min <= y <= y_max,
                x_min <= x <= x_max + 1,
                buffer@ == painted(b0, size, tri_scan(va, vb, vc, y as int, x as int), color),
            decreases x_max - x + 1,
        {
            proof {
                lemma_mul_bound(bx - ax, y - ay);
                lemma_mul_bound(by - ay, x - ax);
                lemma_mul_bound(cx - bx, y - by);
                lemma_mul_bound(cy - by, x - bx);
                lemma_mul_bound(ax - cx, y - cy);
                lemma_mul_bound(ay - cy, x - cx);
            }
            let w1: i128 = ((bx - ax) as i128) * ((y - ay) as i128) - ((by - ay) as i128) * ((x
                - ax) as i128);
            let w2: i128 = ((cx - bx) as i128) * ((y - by) as i128) - ((cy - by) as i128) * ((x
                - bx) as i128);
            let w3: i128 = ((ax - cx) as i128) * ((y - cy) as i128) - ((ay - cy) as i128) * ((x
                - cx) as i128);
            let inside: bool = if d > 0 {
                w1 >= 0 && w2 >= 0 && w3 >= 0
            } else {
                w1 <= 0 && w2 <= 0 && w3 <= 0
            };
            if inside {
                plot(buffer, size, x, y, color);
                proof {
                    lemma_painted_union(
                        b0,
                        size,
                        tri_scan(va, vb, vc, y as int, x as int),
                        one_pt(x as int, y as int),
                        color,
                    );
                    assert(tri_pts(va, vb, vc).contains((x as int, y as int)));
                    assert(tri_scan(va, vb, vc, y as int, x as int).union(
                        one_pt(x as int, y as int),
                    ) =~= tri_scan(va, vb, vc, y as int, x as int + 1));
                }
            } else {
                proof {
                    assert(!tri_inside(va, vb, vc, (x as int, y as int)));
                    assert(tri_scan(va, vb, vc, y as int, x as int) =~= tri_scan(
                        va,
                        vb,
                        vc,
                        y as int,
                        x as int + 1,
                    ));
                }
            }
            x = x + 1;
        }
        proof {
            assert(tri_scan(va, vb, vc, y as int, x as int) =~= tri_scan(
                va,
                vb,
                vc,
                y as int + 1,
                x_min as int,
            ));
        }
        y = y + 1;
    }
    proof {
        assert(tri_scan(va, vb, vc, y as int, x_min as int) =~= tri_pts(va, vb, vc));
    }
}

} // verus!

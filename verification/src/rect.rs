//! Axis-aligned filled rectangles.
//!
//! The pixel set is the half-open box [origin, origin + extent) in both
//! coordinates; a non-positive extent component paints nothing.

use crate::canvas::{lemma_painted_union, one_pt, painted, plot};
use crate::geom::{Color, Point};
use vstd::prelude::*;

verus! {

/// The pixels of the rectangle with the given origin and extent: the
/// half-open box [o, o + ext) in both coordinates.
pub open spec fn rect_pts(o: (int, int), ext: (int, int)) -> Set<(int, int)> {
    Set::new(
        |p: (int, int)| o.0 <= p.0 < o.0 + ext.0 && o.1 <= p.1 < o.1 + ext.1,
    )
}

/// The rectangle pixels before scan position (x, y): whole columns below
/// x, plus the part of column x below y.
pub open spec fn rect_upto(o: (int, int), ext: (int, int), x: int, y: int) -> Set<(int, int)> {
    Set::new(
        |p: (int, int)|
            rect_pts(o, ext).contains(p) && (p.0 < x || (p.0 == x && p.1 < y)),
    )
}

/// Count of the rectangle pixels before scan position (x, y).
proof fn lemma_rect_count_rec(o: (int, int), ext: (int, int), x: int, y: int)
    requires
        0 < ext.0,
        0 <= ext.1,
        o.0 <= x < o.0 + ext.0,
        o.1 <= y <= o.1 + ext.1,
    ensures
        rect_upto(o, ext, x, y).finite(),
        rect_upto(o, ext, x, y).len() == (x - o.0) * ext.1 + (y - o.1),
    decreases x - o.0, y - o.1,
{
    if y == o.1 {
        if x == o.0 {
            assert(rect_upto(o, ext, x, y) =~= Set::empty());
            assert((x - o.0) * ext.1 + (y - o.1) == 0) by (nonlinear_arith)
                requires
                    x == o.0,
                    y == o.1,
            ;
        } else {
            lemma_rect_count_rec(o, ext, x - 1, o.1 + ext.1);
            assert(rect_upto(o, ext, x, y) =~= rect_upto(o, ext, x - 1, o.1 + ext.1));
            assert((x - 1 - o.0) * ext.1 + ext.1 == (x - o.0) * ext.1) by (nonlinear_arith);
        }
    } else {
        lemma_rect_count_rec(o, ext, x, y - 1);
        assert(rect_pts(o, ext).contains((x, y - 1)));
        assert(!rect_upto(o, ext, x, y - 1).contains((x, y - 1)));
        assert(rect_upto(o, ext, x, y) =~= rect_upto(o, ext, x, y - 1).insert((x, y - 1)));
    }
}

/// A rectangle with extent (w, h), both positive, has exactly w * h
/// pixels, all of them inside the half-open box by definition of
/// [`rect_pts`]; a non-positive extent component gives the empty pixel
/// set.
pub proof fn lemma_rect_count(o: (int, int), ext: (int, int))
    ensures
        0 < ext.0 && 0 < ext.1 ==> rect_pts(o, ext).finite() && rect_pts(o, ext).len() == ext.0
            * ext.1,
        ext.0 <= 0 || ext.1 <= 0 ==> rect_pts(o, ext) == Set::<(int, int)>::empty(),
{
    if 0 < ext.0 && 0 < ext.1 {
        lemma_rect_count_rec(o, ext, o.0 + ext.0 - 1, o.1 + ext.1);
        assert(rect_pts(o, ext) =~= rect_upto(o, ext, o.0 + ext.0 - 1, o.1 + ext.1));
        assert((ext.0 - 1) * ext.1 + ext.1 == ext.0 * ext.1) by (nonlinear_arith);
    } else {
        assert(rect_pts(o, ext) =~= Set::empty());
    }
}

/// Paints every pixel of the half-open box [pos, pos + rectangle_size):
/// columns left to right, each column top to bottom. A non-positive
/// extent component paints nothing.
pub fn draw_filled_rectangle(
    buffer: &mut Vec<u8>,
    size: Point,
    pos: Point,
    rectangle_size: Point,
    color: Color,
)
    ensures
        final(buffer)@ == painted(
            old(buffer)@,
            size,
            rect_pts(
                (pos.x as int, pos.y as int),
                (rectangle_size.x as int, rectangle_size.y as int),
            ),
            color,
        ),
        rectangle_size.x <= 0 || rectangle_size.y <= 0 ==> final(buffer)@ == old(buffer)@,
{
    let ghost b0 = buffer@;
    let ghost o = (pos.x as int, pos.y as int);
    let ghost ext = (rectangle_size.x as int, rectangle_size.y as int);
    let x_end: i64 = pos.x as i64 + rectangle_size.x as i64;
    let y_end: i64 = pos.y as i64 + rectangle_size.y as i64;
    let y_start: i64 = pos.y as i64;
    let mut x: i64 = pos.x as i64;
    proof {
        assert(painted(b0, size, rect_upto(o, ext, x as int, o.1), color) =~= b0);
    }
    while x < x_end
        invariant
            o == (pos.x as int, pos.y as int),
            ext == (rectangle_size.x as int, rectangle_size.y as int),
            b0 == old(buffer)@,
            x_end == o.0 + ext.0,
            y_end == o.1 + ext.1,
            y_start == o.1,
            o.0 <= x <= o.0 + ext.0 || x == o.0,
            buffer@ == painted(b0, size, rect_upto(o, ext, x as int, o.1), color),
        decreases x_end - x,
    {
        let mut y: i64 = y_start;
        while y < y_end
            invariant
                o == (pos.x as int, pos.y as int),
                ext == (rectangle_size.x as int, rectangle_size.y as int),
                b0 == old(buffer)@,
                x_end == o.0 + ext.0,
                y_end == o.1 + ext.1,
                o.0 <= x < o.0 + ext.0,
                o.1 <= y <= o.1 + ext.1 || y == o.1,
                buffer@ == painted(b0, size, rect_upto(o, ext, x as int, y as int), color),
            decreases y_end - y,
        {
            plot(buffer, size, x, y, color);
            proof {
                lemma_painted_union(
                    b0,
                    size,
                    rect_upto(o, ext, x as int, y as int),
                    one_pt(x as int, y as int),
                    color,
                );
                assert(rect_upto(o, ext, x as int, y as int).union(one_pt(x as int, y as int))
                    =~= rect_upto(o, ext, x as int, y as int + 1));
            }
            y = y + 1;
        }
        proof {
            assert(rect_upto(o, ext, x as int, y as int) =~= rect_upto(
                o,
                ext,
                x as int + 1,
                o.1,
            ));
        }
        x = x + 1;
    }
    proof {
        assert(rect_upto(o, ext, x as int, o.1) =~= rect_pts(o, ext));
        if rectangle_size.x <= 0 || rectangle_size.y <= 0 {
            assert(painted(b0, size, rect_pts(o, ext), color) =~= b0);
        }
    }
}

} // verus!

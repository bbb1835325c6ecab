//! Circle outlines and filled discs, rasterized with the midpoint
//! (incremental-error) circle walk, exploiting the 8-way symmetry of the
//! circle.
//!
//! [`circ_steps`] is the sequence of octant positions the walk visits.
//! The outline paints the 8-point orbit of each position around the
//! center; the filled disc paints four horizontal chords per position
//! through the line rasterizer, which leaves no gaps because consecutive
//! octant steps never skip a row.

use crate::canvas::{lemma_painted_union, one_pt, painted, plot};
use crate::geom::{Color, Point};
use crate::line::{lemma_line_horizontal, line_i64, line_pts};
use vstd::prelude::*;

verus! {

/// The octant positions the midpoint walk visits from state (x, y, err)
/// on: while x >= y, record (x, y), advance y, and pull x in when the
/// error term crosses the midpoint.
pub open spec fn circ_steps(x: int, y: int, err: int) -> Seq<(int, int)>
    decreases (if x >= y {
        x - y + 1
    } else {
        0
    }),
{
    if x < y {
        Seq::empty()
    } else {
        let y2 = y + 1;
        let e2 = err + 1 + 2 * y2;
        if 2 * (e2 - x) + 1 > 0 {
            seq![(x, y)] + circ_steps(x - 1, y2, e2 + 1 - 2 * (x - 1))
        } else {
            seq![(x, y)] + circ_steps(x, y2, e2)
        }
    }
}

/// p lies in the 8-point orbit of the octant position q under the
/// symmetries of the square.
pub open spec fn in_orbit(q: (int, int), p: (int, int)) -> bool {
    ||| p == (q.0, q.1)
    ||| p == (-q.0, q.1)
    ||| p == (q.0, -q.1)
    ||| p == (-q.0, -q.1)
    ||| p == (q.1, q.0)
    ||| p == (-q.1, q.0)
    ||| p == (q.1, -q.0)
    ||| p == (-q.1, -q.0)
}

/// p lies on one of the four horizontal chords of the octant position q:
/// rows +-q.1 spanning +-q.0, and rows +-q.0 spanning +-q.1.
pub open spec fn in_chords(q: (int, int), p: (int, int)) -> bool {
    ||| (p.1 == q.1 && -q.0 <= p.0 <= q.0)
    ||| (p.1 == q.0 && -q.1 <= p.0 <= q.1)
    ||| (p.1 == -q.1 && -q.0 <= p.0 <= q.0)
    ||| (p.1 == -q.0 && -q.1 <= p.0 <= q.1)
}

/// The orbit pixels of a sequence of octant positions.
pub open spec fn orbit_set(steps: Seq<(int, int)>) -> Set<(int, int)> {
    Set::new(|p: (int, int)| exists|i: int| 0 <= i < steps.len() && in_orbit(steps[i], p))
}

/// The chord pixels of a sequence of octant positions.
pub open spec fn chord_set(steps: Seq<(int, int)>) -> Set<(int, int)> {
    Set::new(|p: (int, int)| exists|i: int| 0 <= i < steps.len() && in_chords(steps[i], p))
}

/// The outline pixels of a circle of radius r, as offsets from the
/// center.
pub open spec fn circle_offsets(r: int) -> Set<(int, int)> {
    orbit_set(circ_steps(r, 0, 0))
}

/// The filled-disc pixels of a circle of radius r, as offsets from the
/// center.
pub open spec fn disc_offsets(r: int) -> Set<(int, int)> {
    chord_set(circ_steps(r, 0, 0))
}

/// A pixel set translated by c.
pub open spec fn shift(pts: Set<(int, int)>, c: (int, int)) -> Set<(int, int)> {
    Set::new(|p: (int, int)| pts.contains((p.0 - c.0, p.1 - c.1)))
}

/// Every octant position of the walk keeps y <= q.1 <= q.0 <= x.
proof fn lemma_circ_steps_bounds(x: int, y: int, err: int)
    ensures
        forall|i: int|
            0 <= i < circ_steps(x, y, err).len() ==> y <= #[trigger] circ_steps(x, y, err)[i].1
                && circ_steps(x, y, err)[i].1 <= circ_steps(x, y, err)[i].0 && circ_steps(
                x,
                y,
                err,
            )[i].0 <= x,
    decreases (if x >= y {
        x - y + 1
    } else {
        0
    }),
{
    if x < y {
    } else {
        let y2 = y + 1;
        let e2 = err + 1 + 2 * y2;
        let rest = if 2 * (e2 - x) + 1 > 0 {
            lemma_circ_steps_bounds(x - 1, y2, e2 + 1 - 2 * (x - 1));
            circ_steps(x - 1, y2, e2 + 1 - 2 * (x - 1))
        } else {
            lemma_circ_steps_bounds(x, y2, e2);
            circ_steps(x, y2, e2)
        };
        let s = circ_steps(x, y, err);
        assert(s == seq![(x, y)] + rest);
        assert forall|i: int| 0 <= i < s.len() implies y <= #[trigger] s[i].1 && s[i].1 <= s[i].0
            && s[i].0 <= x by {
            if i == 0 {
                assert(s[i] == (x, y));
            } else {
                assert(s[i] == rest[i - 1]);
            }
        }
    }
}

/// Appending an octant position extends the orbit pixels by the shifted
/// 8-point orbit of that position.
proof fn lemma_orbit_push(done: Seq<(int, int)>, q: (int, int), c: (int, int))
    ensures
        shift(orbit_set(done.push(q)), c) == shift(orbit_set(done), c).union(
            one_pt(c.0 + q.0, c.1 + q.1),
        ).union(one_pt(c.0 - q.0, c.1 + q.1)).union(one_pt(c.0 + q.0, c.1 - q.1)).union(
            one_pt(c.0 - q.0, c.1 - q.1),
        ).union(one_pt(c.0 + q.1, c.1 + q.0)).union(one_pt(c.0 - q.1, c.1 + q.0)).union(
            one_pt(c.0 + q.1, c.1 - q.0),
        ).union(one_pt(c.0 - q.1, c.1 - q.0)),
{
    let lhs = shift(orbit_set(done.push(q)), c);
    let rhs = shift(orbit_set(done), c).union(one_pt(c.0 + q.0, c.1 + q.1)).union(
        one_pt(c.0 - q.0, c.1 + q.1),
    ).union(one_pt(c.0 + q.0, c.1 - q.1)).union(one_pt(c.0 - q.0, c.1 - q.1)).union(
        one_pt(c.0 + q.1, c.1 + q.0),
    ).union(one_pt(c.0 - q.1, c.1 + q.0)).union(one_pt(c.0 + q.1, c.1 - q.0)).union(
        one_pt(c.0 - q.1, c.1 - q.0),
    );
    assert forall|p: (int, int)| lhs.contains(p) implies rhs.contains(p) by {
        let v = (p.0 - c.0, p.1 - c.1);
        let i = choose|i: int| 0 <= i < done.push(q).len() && in_orbit(done.push(q)[i], v);
        if i < done.len() {
            assert(done.push(q)[i] == done[i]);
            assert(orbit_set(done).contains(v));
            assert(shift(orbit_set(done), c).contains(p));
        } else {
            assert(done.push(q)[i] == q);
        }
    }
    assert forall|p: (int, int)| rhs.contains(p) implies lhs.contains(p) by {
        let v = (p.0 - c.0, p.1 - c.1);
        if shift(orbit_set(done), c).contains(p) {
            let i = choose|i: int| 0 <= i < done.len() && in_orbit(done[i], v);
            assert(done.push(q)[i] == done[i]);
            assert(0 <= i < done.push(q).len() && in_orbit(done.push(q)[i], v));
        } else {
            let i = done.len() as int;
            assert(done.push(q)[i] == q);
            assert(in_orbit(q, v));
            assert(0 <= i < done.push(q).len() && in_orbit(done.push(q)[i], v));
        }
    }
    assert(lhs =~= rhs);
}

/// Appending an octant position extends the chord pixels by the four
/// shifted row spans of that position, each the pixel set of a
/// horizontal segment.
proof fn lemma_chords_push(done: Seq<(int, int)>, q: (int, int), c: (int, int))
    requires
        0 <= q.1 <= q.0,
    ensures
        shift(chord_set(done.push(q)), c) == shift(chord_set(done), c).union(
            line_pts((c.0 + q.0, c.1 + q.1), (c.0 - q.0, c.1 + q.1)),
        ).union(line_pts((c.0 + q.1, c.1 + q.0), (c.0 - q.1, c.1 + q.0))).union(
            line_pts((c.0 - q.0, c.1 - q.1), (c.0 + q.0, c.1 - q.1)),
        ).union(line_pts((c.0 - q.1, c.1 - q.0), (c.0 + q.1, c.1 - q.0))),
{
    lemma_line_horizontal((c.0 + q.0, c.1 + q.1), (c.0 - q.0, c.1 + q.1));
    lemma_line_horizontal((c.0 + q.1, c.1 + q.0), (c.0 - q.1, c.1 + q.0));
    lemma_line_horizontal((c.0 - q.0, c.1 - q.1), (c.0 + q.0, c.1 - q.1));
    lemma_line_horizontal((c.0 - q.1, c.1 - q.0), (c.0 + q.1, c.1 - q.0));
    let lhs = shift(chord_set(done.push(q)), c);
    let rhs = shift(chord_set(done), c).union(
        line_pts((c.0 + q.0, c.1 + q.1), (c.0 - q.0, c.1 + q.1)),
    ).union(line_pts((c.0 + q.1, c.1 + q.0), (c.0 - q.1, c.1 + q.0))).union(
        line_pts((c.0 - q.0, c.1 - q.1), (c.0 + q.0, c.1 - q.1)),
    ).union(line_pts((c.0 - q.1, c.1 - q.0), (c.0 + q.1, c.1 - q.0)));
    assert forall|p: (int, int)| lhs.contains(p) implies rhs.contains(p) by {
        let v = (p.0 - c.0, p.1 - c.1);
        let i = choose|i: int| 0 <= i < done.push(q).len() && in_chords(done.push(q)[i], v);
        if i < done.len() {
            assert(done.push(q)[i] == done[i]);
            assert(chord_set(done).contains(v));
            assert(shift(chord_set(done), c).contains(p));
        } else {
            assert(done.push(q)[i] == q);
        }
    }
    assert forall|p: (int, int)| rhs.contains(p) implies lhs.contains(p) by {
        let v = (p.0 - c.0, p.1 - c.1);
        if shift(chord_set(done), c).contains(p) {
            let i = choose|i: int| 0 <= i < done.len() && in_chords(done[i], v);
            assert(done.push(q)[i] == done[i]);
            assert(0 <= i < done.push(q).len() && in_chords(done.push(q)[i], v));
        } else {
            let i = done.len() as int;
            assert(done.push(q)[i] == q);
            assert(in_chords(q, v));
            assert(0 <= i < done.push(q).len() && in_chords(done.push(q)[i], v));
        }
    }
    assert(lhs =~= rhs);
}

/// Paints the outline of the circle with the given center and radius:
/// the 8-point orbit of every octant position of the midpoint walk. A
/// negative radius paints nothing; radius 0 paints only the center
/// pixel.
pub fn draw_circle(buffer: &mut Vec<u8>, size: Point, pos: Point, radius: i32, color: Color)
    ensures
        final(buffer)@ == painted(
            old(buffer)@,
            size,
            shift(circle_offsets(radius as int), (pos.x as int, pos.y as int)),
            color,
        ),
{
    let ghost b0 = buffer@;
    let ghost c = (pos.x as int, pos.y as int);
    let cx: i64 = pos.x as i64;
    let cy: i64 = pos.y as i64;
    let mut x: i64 = radius as i64;
    let mut y: i64 = 0;
    let mut err: i128 = 0;
    let ghost mut done: Seq<(int, int)> = Seq::empty();
    proof {
        assert(done + circ_steps(radius as int, 0, 0) =~= circ_steps(radius as int, 0, 0));
        assert(painted(b0, size, shift(orbit_set(done), c), color) =~= b0);
    }
    while x >= y
        invariant
            c == (pos.x as int, pos.y as int),
            cx == pos.x as i64,
            cy == pos.y as i64,
            b0 == old(buffer)@,
            -0x8000_0000 <= x <= 0x8000_0000,
            0 <= y <= 0x1_0000_0000,
            -(2 * y + 4) * 0x10_0000_0000 <= err <= (2 * y + 4) * 0x10_0000_0000,
            circ_steps(radius as int, 0, 0) == done + circ_steps(x as int, y as int, err as int),
            buffer@ == painted(b0, size, shift(orbit_set(done), c), color),
        decreases x - y + 2,
    {
        let ghost q = (x as int, y as int);
        let ghost e_old = err as int;
        let ghost done0 = done;
        let ghost mut acc = shift(orbit_set(done), c);
        plot(buffer, size, cx + x, cy + y, color);
        proof {
            lemma_painted_union(b0, size, acc, one_pt(c.0 + q.0, c.1 + q.1), color);
            acc = acc.union(one_pt(c.0 + q.0, c.1 + q.1));
        }
        plot(buffer, size, cx - x, cy + y, color);
        proof {
            lemma_painted_union(b0, size, acc, one_pt(c.0 - q.0, c.1 + q.1), color);
            acc = acc.union(one_pt(c.0 - q.0, c.1 + q.1));
        }
        plot(buffer, size, cx + x, cy - y, color);
        proof {
            lemma_painted_union(b0, size, acc, one_pt(c.0 + q.0, c.1 - q.1), color);
            acc = acc.union(one_pt(c.0 + q.0, c.1 - q.1));
        }
        plot(buffer, size, cx - x, cy - y, color);
        proof {
            lemma_painted_union(b0, size, acc, one_pt(c.0 - q.0, c.1 - q.1), color);
            acc = acc.union(one_pt(c.0 - q.0, c.1 - q.1));
        }
        plot(buffer, size, cx + y, cy + x, color);
        proof {
            lemma_painted_union(b0, size, acc, one_pt(c.0 + q.1, c.1 + q.0), color);
            acc = acc.union(one_pt(c.0 + q.1, c.1 + q.0));
        }
        plot(buffer, size, cx - y, cy + x, color);
        proof {
            lemma_painted_union(b0, size, acc, one_pt(c.0 - q.1, c.1 + q.0), color);
            acc = acc.union(one_pt(c.0 - q.1, c.1 + q.0));
        }
        plot(buffer, size, cx + y, cy - x, color);
        proof {
            lemma_painted_union(b0, size, acc, one_pt(c.0 + q.1, c.1 - q.0), color);
            acc = acc.union(one_pt(c.0 + q.1, c.1 - q.0));
        }
        plot(buffer, size, cx - y, cy - x, color);
        proof {
            lemma_painted_union(b0, size, acc, one_pt(c.0 - q.1, c.1 - q.0), color);
            acc = acc.union(one_pt(c.0 - q.1, c.1 - q.0));
            lemma_orbit_push(done0, q, c);
            done = done0.push(q);
        }
        y = y + 1;
        err = err + 1 + 2 * (y as i128);
        if 2 * (err - (x as i128)) + 1 > 0 {
            x = x - 1;
            err = err + 1 - 2 * (x as i128);
        }
        proof {
            let rest = circ_steps(x as int, y as int, err as int);
            assert(circ_steps(q.0, q.1, e_old) == seq![q] + rest);
            assert(done0 + (seq![q] + rest) =~= done + rest);
        }
    }
    proof {
        assert(circ_steps(x as int, y as int, err as int) =~= Seq::<(int, int)>::empty());
        assert(done + circ_steps(x as int, y as int, err as int) =~= done);
    }
}

/// Paints the filled disc with the given center and radius: four
/// horizontal chords per octant position of the midpoint walk, drawn
/// through the line rasterizer. A negative radius paints nothing; radius
/// 0 paints only the center pixel.
pub fn draw_filled_circle(buffer: &mut Vec<u8>, size: Point, pos: Point, radius: i32, color: Color)
    ensures
        final(buffer)@ == painted(
            old(buffer)@,
            size,
            shift(disc_offsets(radius as int), (pos.x as int, pos.y as int)),
            color,
        ),
{
    let ghost b0 = buffer@;
    let ghost c = (pos.x as int, pos.y as int);
    let cx: i64 = pos.x as i64;
    let cy: i64 = pos.y as i64;
    let mut x: i64 = radius as i64;
    let mut y: i64 = 0;
    let mut err: i128 = 0;
    let ghost mut done: Seq<(int, int)> = Seq::empty();
    proof {
        assert(done + circ_steps(radius as int, 0, 0) =~= circ_steps(radius as int, 0, 0));
        assert(painted(b0, size, shift(chord_set(done), c), color) =~= b0);
    }
    while x >= y
        invariant
            c == (pos.x as int, pos.y as int),
            cx == pos.x as i64,
            cy == pos.y as i64,
            b0 == old(buffer)@,
            -0x8000_0000 <= x <= 0x8000_0000,
            0 <= y <= 0x1_0000_0000,
            -(2 * y + 4) * 0x10_0000_0000 <= err <= (2 * y + 4) * 0x10_0000_0000,
            circ_steps(radius as int, 0, 0) == done + circ_steps(x as int, y as int, err as int),
            buffer@ == painted(b0, size, shift(chord_set(done), c), color),
        decreases x - y + 2,
    {
        let ghost q = (x as int, y as int);
        let ghost e_old = err as int;
        let ghost done0 = done;
        let ghost mut acc = shift(chord_set(done), c);
        line_i64(buffer, size, cx + x, cy + y, cx - x, cy + y, color);
        proof {
            let add = line_pts((c.0 + q.0, c.1 + q.1), (c.0 - q.0, c.1 + q.1));
            lemma_painted_union(b0, size, acc, add, color);
            acc = acc.union(add);
        }
        line_i64(buffer, size, cx + y, cy + x, cx - y, cy + x, color);
        proof {
            let add = line_pts((c.0 + q.1, c.1 + q.0), (c.0 - q.1, c.1 + q.0));
            lemma_painted_union(b0, size, acc, add, color);
            acc = acc.union(add);
        }
        line_i64(buffer, size, cx - x, cy - y, cx + x, cy - y, color);
        proof {
            let add = line_pts((c.0 - q.0, c.1 - q.1), (c.0 + q.0, c.1 - q.1));
            lemma_painted_union(b0, size, acc, add, color);
            acc = acc.union(add);
        }
        line_i64(buffer, size, cx - y, cy - x, cx + y, cy - x, color);
        proof {
            let add = line_pts((c.0 - q.1, c.1 - q.0), (c.0 + q.1, c.1 - q.0));
            lemma_painted_union(b0, size, acc, add, color);
            acc = acc.union(add);
            lemma_chords_push(done0, q, c);
            done = done0.push(q);
        }
        y = y + 1;
        err = err + 1 + 2 * (y as i128);
        if 2 * (err - (x as i128)) + 1 > 0 {
            x = x - 1;
            err = err + 1 - 2 * (x as i128);
        }
        proof {
            let rest = circ_steps(x as int, y as int, err as int);
            assert(circ_steps(q.0, q.1, e_old) == seq![q] + rest);
            assert(done0 + (seq![q] + rest) =~= done + rest);
        }
    }
    proof {
        assert(circ_steps(x as int, y as int, err as int) =~= Seq::<(int, int)>::empty());
        assert(done + circ_steps(x as int, y as int, err as int) =~= done);
    }
}

/// An 8-point orbit is closed under swapping the axes and reflecting
/// either axis.
proof fn lemma_orbit_closed(q: (int, int), p: (int, int))
    requires
        in_orbit(q, p),
    ensures
        in_orbit(q, (p.1, p.0)),
        in_orbit(q, (-p.0, p.1)),
        in_orbit(q, (p.0, -p.1)),
{
}

/// Radius zero degenerates, in both variants, to the single center
/// pixel: the 8 orbit points coincide and the chords have length one.
pub proof fn lemma_circle_radius_zero()
    ensures
        circle_offsets(0) == one_pt(0, 0),
        disc_offsets(0) == one_pt(0, 0),
{
    let steps = circ_steps(0, 0, 0);
    assert(circ_steps(-1, 1, 6) =~= Seq::<(int, int)>::empty());
    assert(steps =~= seq![(0int, 0int)]);
    assert forall|p: (int, int)| circle_offsets(0).contains(p) implies p == (0int, 0int) by {
        let i = choose|i: int| 0 <= i < steps.len() && in_orbit(steps[i], p);
    }
    assert(in_orbit(steps[0], (0, 0)));
    assert(circle_offsets(0).contains((0, 0)));
    assert(circle_offsets(0) =~= one_pt(0, 0));
    assert forall|p: (int, int)| disc_offsets(0).contains(p) implies p == (0int, 0int) by {
        let i = choose|i: int| 0 <= i < steps.len() && in_chords(steps[i], p);
    }
    assert(in_chords(steps[0], (0, 0)));
    assert(disc_offsets(0).contains((0, 0)));
    assert(disc_offsets(0) =~= one_pt(0, 0));
}

/// The circle outline is invariant under the 8 symmetries of the
/// square: swapping the axes and reflecting either axis map the offset
/// set into itself. Each of these transforms is an involution and
/// together they generate all 8 symmetries, so the set is invariant
/// under every one of them.
pub proof fn lemma_circle_symmetry(r: int)
    ensures
        forall|p: (int, int)|
            #[trigger] circle_offsets(r).contains(p) ==> circle_offsets(r).contains((p.1, p.0)),
        forall|p: (int, int)|
            #[trigger] circle_offsets(r).contains(p) ==> circle_offsets(r).contains((-p.0, p.1)),
        forall|p: (int, int)|
            #[trigger] circle_offsets(r).contains(p) ==> circle_offsets(r).contains((p.0, -p.1)),
{
    let steps = circ_steps(r, 0, 0);
    assert forall|p: (int, int)| #[trigger] circle_offsets(r).contains(p) implies circle_offsets(
        r,
    ).contains((p.1, p.0)) && circle_offsets(r).contains((-p.0, p.1)) && circle_offsets(
        r,
    ).contains((p.0, -p.1)) by {
        let i = choose|i: int| 0 <= i < steps.len() && in_orbit(steps[i], p);
        lemma_orbit_closed(steps[i], p);
        assert(0 <= i < steps.len() && in_orbit(steps[i], (p.1, p.0)));
        assert(0 <= i < steps.len() && in_orbit(steps[i], (-p.0, p.1)));
        assert(0 <= i < steps.len() && in_orbit(steps[i], (p.0, -p.1)));
    }
}

/// The filled disc contains the whole outline, and no disc pixel lies
/// further than r from the center in either coordinate (Chebyshev
/// distance), for any non-negative radius.
pub proof fn lemma_disc_contains_outline(r: int)
    requires
        0 <= r,
    ensures
        circle_offsets(r).subset_of(disc_offsets(r)),
        forall|p: (int, int)|
            #[trigger] disc_offsets(r).contains(p) ==> -r <= p.0 <= r && -r <= p.1 <= r,
{
    let steps = circ_steps(r, 0, 0);
    lemma_circ_steps_bounds(r, 0, 0);
    assert forall|p: (int, int)| circle_offsets(r).contains(p) implies disc_offsets(r).contains(
        p,
    ) by {
        let i = choose|i: int| 0 <= i < steps.len() && in_orbit(steps[i], p);
        assert(in_chords(steps[i], p));
        assert(0 <= i < steps.len() && in_chords(steps[i], p));
    }
    assert forall|p: (int, int)| #[trigger] disc_offsets(r).contains(p) implies -r <= p.0 <= r
        && -r <= p.1 <= r by {
        let i = choose|i: int| 0 <= i < steps.len() && in_chords(steps[i], p);
    }
}

} // verus!

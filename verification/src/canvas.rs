//! The pixel-write model shared by every rasterizer.
//!
//! A canvas is a flat byte buffer, row-major, four bytes per pixel. A
//! write at (x, y) is legal iff 0 <= x < width, 0 <= y < height and the
//! four-byte span fits inside the actual buffer; an illegal write is a
//! silent no-op. [`draw_pixel`] is the single choke point that enforces
//! this: every other routine paints through it (directly or through a
//! helper with the same contract).
//!
//! The effect of a whole drawing operation is described by [`painted`]:
//! the buffer after painting a set of pixels with one colour.

use crate::geom::{Color, Point};
use vstd::arithmetic::div_mod::lemma_fundamental_div_mod_converse;
use vstd::arithmetic::mul::lemma_mul_nonnegative;
use vstd::arithmetic::mul::lemma_mul_upper_bound;
use vstd::prelude::*;

verus! {

/// Byte offset of pixel (x, y) on a canvas of the given size.
pub open spec fn pix_off(size: Point, x: int, y: int) -> int {
    4 * ((size.x as int) * y + x)
}

/// The coordinate lies inside the canvas rectangle.
pub open spec fn in_canvas(size: Point, x: int, y: int) -> bool {
    0 <= x < size.x as int && 0 <= y < size.y as int
}

/// A write at (x, y) is legal: inside the canvas and the four-byte span
/// fits inside a buffer of length `len`.
pub open spec fn can_write(size: Point, len: int, x: int, y: int) -> bool {
    in_canvas(size, x, y) && pix_off(size, x, y) + 4 <= len
}

/// Channel byte j (0..4) of a colour, in buffer order r, g, b, a.
pub open spec fn chan(color: Color, j: int) -> u8 {
    if j == 0 {
        color.r
    } else if j == 1 {
        color.g
    } else if j == 2 {
        color.b
    } else {
        color.a
    }
}

/// Byte index i of a buffer of length `len` belongs to the span of some
/// legally writable pixel of `pts`.
pub open spec fn covers(pts: Set<(int, int)>, size: Point, len: int, i: int) -> bool {
    exists|p: (int, int)|
        pts.contains(p) && can_write(size, len, p.0, p.1) && pix_off(size, p.0, p.1) <= i
            < pix_off(size, p.0, p.1) + 4
}

/// The buffer after painting every legally writable pixel of `pts` with
/// `color`: covered bytes hold the colour's channel bytes, every other
/// byte is unchanged.
pub open spec fn painted(b: Seq<u8>, size: Point, pts: Set<(int, int)>, color: Color) -> Seq<u8> {
    Seq::new(
        b.len(),
        |i: int|
            if covers(pts, size, b.len() as int, i) {
                chan(color, i % 4)
            } else {
                b[i]
            },
    )
}

/// The singleton pixel set {(x, y)}.
pub open spec fn one_pt(x: int, y: int) -> Set<(int, int)> {
    Set::new(|p: (int, int)| p == (x, y))
}

/// Within the span of a legally writable pixel, the channel index i % 4
/// equals the distance from the span's start.
pub proof fn lemma_off_mod(size: Point, len: int, x: int, y: int, i: int)
    requires
        can_write(size, len, x, y),
        pix_off(size, x, y) <= i < pix_off(size, x, y) + 4,
    ensures
        0 <= i,
        i % 4 == i - pix_off(size, x, y),
{
    let m = (size.x as int) * y + x;
    lemma_mul_nonnegative(size.x as int, y);
    lemma_fundamental_div_mod_converse(i, 4, m, i - 4 * m);
}

/// Bounds safety: painting never grows or shrinks the buffer, and every
/// byte outside the spans of the legally writable painted pixels — in
/// particular every byte beyond the canvas or beyond the buffer's own
/// length — is left untouched, whatever pixel set an operation paints.
pub proof fn lemma_painted_in_buffer(b: Seq<u8>, size: Point, pts: Set<(int, int)>, color: Color)
    ensures
        painted(b, size, pts, color).len() == b.len(),
        forall|i: int|
            0 <= i < b.len() && !covers(pts, size, b.len() as int, i) ==> painted(
                b,
                size,
                pts,
                color,
            )[i] == b[i],
{
}

/// Painting one set and then another, with the same colour, paints the
/// union of the two sets.
pub proof fn lemma_painted_union(
    b: Seq<u8>,
    size: Point,
    p1: Set<(int, int)>,
    p2: Set<(int, int)>,
    color: Color,
)
    ensures
        painted(painted(b, size, p1, color), size, p2, color) == painted(
            b,
            size,
            p1.union(p2),
            color,
        ),
{
    let len = b.len() as int;
    let b1 = painted(b, size, p1, color);
    let lhs = painted(b1, size, p2, color);
    let rhs = painted(b, size, p1.union(p2), color);
    assert forall|i: int| 0 <= i < b.len() implies lhs[i] == rhs[i] by {
        if covers(p2, size, len, i) {
            let p = choose|p: (int, int)|
                p2.contains(p) && can_write(size, len, p.0, p.1) && pix_off(size, p.0, p.1) <= i
                    < pix_off(size, p.0, p.1) + 4;
            assert(p1.union(p2).contains(p));
            assert(covers(p1.union(p2), size, len, i));
        } else if covers(p1, size, len, i) {
            let p = choose|p: (int, int)|
                p1.contains(p) && can_write(size, len, p.0, p.1) && pix_off(size, p.0, p.1) <= i
                    < pix_off(size, p.0, p.1) + 4;
            assert(p1.union(p2).contains(p));
            assert(covers(p1.union(p2), size, len, i));
        } else {
            if covers(p1.union(p2), size, len, i) {
                let p = choose|p: (int, int)|
                    p1.union(p2).contains(p) && can_write(size, len, p.0, p.1) && pix_off(
                        size,
                        p.0,
                        p.1,
                    ) <= i < pix_off(size, p.0, p.1) + 4;
                if p1.contains(p) {
                    assert(covers(p1, size, len, i));
                } else {
                    assert(p2.contains(p));
                    assert(covers(p2, size, len, i));
                }
            }
        }
    }
    assert(lhs =~= rhs);
}

/// A legally writable pixel of the painted set holds the colour's four
/// channel bytes after painting.
pub proof fn lemma_painted_at(
    b: Seq<u8>,
    size: Point,
    pts: Set<(int, int)>,
    color: Color,
    x: int,
    y: int,
)
    requires
        pts.contains((x, y)),
        can_write(size, b.len() as int, x, y),
    ensures
        forall|j: int|
            0 <= j < 4 ==> painted(b, size, pts, color)[pix_off(size, x, y) + j] == chan(color, j),
{
    let len = b.len() as int;
    let off = pix_off(size, x, y);
    assert forall|j: int| 0 <= j < 4 implies painted(b, size, pts, color)[off + j] == chan(
        color,
        j,
    ) by {
        let p = (x, y);
        assert(pts.contains(p) && can_write(size, len, p.0, p.1) && pix_off(size, p.0, p.1) <= off
            + j < pix_off(size, p.0, p.1) + 4);
        assert(covers(pts, size, len, off + j));
        lemma_off_mod(size, len, x, y, off + j);
    }
}

/// Writes `color` at (x, y): four channel bytes at consecutive offsets
/// starting at `pix_off`, in the order r, g, b, a. Out-of-canvas
/// coordinates and spans that do not fit inside the buffer are silently
/// skipped.
pub(crate) fn plot(buffer: &mut Vec<u8>, size: Point, x: i64, y: i64, color: Color)
    ensures
        final(buffer)@ == painted(old(buffer)@, size, one_pt(x as int, y as int), color),
{
    let ghost b0 = buffer@;
    let ghost pts = one_pt(x as int, y as int);
    let ghost len = b0.len() as int;
    let n: usize = buffer.len();
    if 0 <= x && x < size.x as i64 && 0 <= y && y < size.y as i64 {
        proof {
            lemma_mul_nonnegative(size.x as int, y as int);
            lemma_mul_upper_bound(size.x as int, 0x7fff_ffff, y as int, 0x7fff_ffff);
        }
        let off64: u64 = 4 * ((size.x as u64) * (y as u64) + (x as u64));
        assert(off64 as int == pix_off(size, x as int, y as int));
        if off64 + 4 <= n as u64 {
            let off: usize = off64 as usize;
            buffer[off] = color.r;
            buffer[off + 1] = color.g;
            buffer[off + 2] = color.b;
            buffer[off + 3] = color.a;
            assert(can_write(size, len, x as int, y as int));
        } else {
            assert(!can_write(size, len, x as int, y as int));
        }
    } else {
        assert(!can_write(size, len, x as int, y as int));
    }
    proof {
        let px = x as int;
        let py = y as int;
        let off = pix_off(size, px, py);
        assert forall|i: int| 0 <= i < len implies buffer@[i] == painted(b0, size, pts, color)[i] by {
            if covers(pts, size, len, i) {
                let p = choose|p: (int, int)|
                    pts.contains(p) && can_write(size, len, p.0, p.1) && pix_off(size, p.0, p.1)
                        <= i < pix_off(size, p.0, p.1) + 4;
                assert(p == (px, py));
                lemma_off_mod(size, len, px, py, i);
            } else {
                if can_write(size, len, px, py) && off <= i < off + 4 {
                    assert(pts.contains((px, py)));
                    assert(covers(pts, size, len, i));
                }
            }
        }
        assert(buffer@ =~= painted(b0, size, pts, color));
    }
}

/// Writes `color` at `pos`, bounds-checked; the single public pixel-write
/// operation.
pub fn draw_pixel(buffer: &mut Vec<u8>, size: Point, pos: Point, color: Color)
    ensures
        final(buffer)@ == painted(
            old(buffer)@,
            size,
            one_pt(pos.x as int, pos.y as int),
            color,
        ),
{
    plot(buffer, size, pos.x as i64, pos.y as i64, color);
}

} // verus!

use rasterizer::canvas::draw_pixel;
use rasterizer::circle::{draw_circle, draw_filled_circle};
use rasterizer::geom::{Color, Point};
use rasterizer::line::draw_line;
use rasterizer::rect::draw_filled_rectangle;
use rasterizer::spline::draw_uniform_cubic_b_spline;
use rasterizer::triangle::draw_filled_triangle;

fn buf(w: usize, h: usize) -> Vec<u8> {
    vec![0u8; w * h * 4]
}

fn px(b: &[u8], w: usize, x: usize, y: usize) -> [u8; 4] {
    let o = 4 * (w * y + x);
    [b[o], b[o + 1], b[o + 2], b[o + 3]]
}

fn painted_set(b: &[u8], w: usize, h: usize) -> Vec<(i32, i32)> {
    let mut v = Vec::new();
    for y in 0..h {
        for x in 0..w {
            if px(b, w, x, y) != [0, 0, 0, 0] {
                v.push((x as i32, y as i32));
            }
        }
    }
    v
}

fn pt(x: i32, y: i32) -> Point {
    Point::new(x, y)
}

const RED: u32 = 0xFF0000FF;

#[test]
fn test_color_from_u32() {
    let c = Color::from_u32(0x11223344);
    assert_eq!((c.r, c.g, c.b, c.a), (0x11, 0x22, 0x33, 0x44));
}

#[test]
fn test_draw_pixel_writes_channel_bytes_in_order() {
    let mut b = buf(4, 4);
    draw_pixel(&mut b, pt(4, 4), pt(2, 1), Color::from_u32(0x01020304));
    assert_eq!(px(&b, 4, 2, 1), [1, 2, 3, 4]);
    // exactly one pixel painted
    assert_eq!(painted_set(&b, 4, 4), vec![(2, 1)]);
}

#[test]
fn test_draw_pixel_out_of_canvas_is_noop() {
    let mut b = buf(4, 4);
    let before = b.clone();
    draw_pixel(&mut b, pt(4, 4), pt(4, 0), Color::from_u32(RED));
    draw_pixel(&mut b, pt(4, 4), pt(0, -1), Color::from_u32(RED));
    draw_pixel(&mut b, pt(4, 4), pt(-1, 3), Color::from_u32(RED));
    assert_eq!(b, before);
}

#[test]
fn test_line_diagonal_scenario() {
    // 10x10 zero-initialized RGBA buffer; the main diagonal turns red
    let mut b = buf(10, 10);
    draw_line(&mut b, pt(10, 10), pt(0, 0), pt(9, 9), Color::from_u32(RED));
    for k in 0..10 {
        assert_eq!(px(&b, 10, k, k), [0xFF, 0x00, 0x00, 0xFF]);
    }
    let diag: Vec<(i32, i32)> = (0..10).map(|k| (k, k)).collect();
    assert_eq!(painted_set(&b, 10, 10), diag);
}

#[test]
fn test_line_endpoints_painted() {
    let mut b = buf(16, 16);
    draw_line(&mut b, pt(16, 16), pt(1, 2), pt(7, 5), Color::from_u32(RED));
    assert_ne!(px(&b, 16, 1, 2), [0, 0, 0, 0]);
    assert_ne!(px(&b, 16, 7, 5), [0, 0, 0, 0]);
}

#[test]
fn test_line_single_point() {
    let mut b = buf(8, 8);
    draw_line(&mut b, pt(8, 8), pt(3, 3), pt(3, 3), Color::from_u32(RED));
    assert_eq!(painted_set(&b, 8, 8), vec![(3, 3)]);
}

#[test]
fn test_line_symmetric_straight_and_diagonal() {
    let color = Color::from_u32(RED);
    // horizontal
    let mut f = buf(12, 12);
    let mut r = buf(12, 12);
    draw_line(&mut f, pt(12, 12), pt(2, 3), pt(9, 3), color);
    draw_line(&mut r, pt(12, 12), pt(9, 3), pt(2, 3), color);
    assert_eq!(f, r);
    // vertical
    let mut f = buf(12, 12);
    let mut r = buf(12, 12);
    draw_line(&mut f, pt(12, 12), pt(5, 1), pt(5, 10), color);
    draw_line(&mut r, pt(12, 12), pt(5, 10), pt(5, 1), color);
    assert_eq!(f, r);
    // exact diagonal
    let mut f = buf(12, 12);
    let mut r = buf(12, 12);
    draw_line(&mut f, pt(12, 12), pt(1, 8), pt(8, 1), color);
    draw_line(&mut r, pt(12, 12), pt(8, 1), pt(1, 8), color);
    assert_eq!(f, r);
}

#[test]
fn test_filled_circle_scenario() {
    // 10x10 buffer; a radius-2 disc at (5,5) in green
    let mut b = buf(10, 10);
    draw_filled_circle(&mut b, pt(10, 10), pt(5, 5), 2, Color::from_u32(0x00FF00FF));
    let mut expected: Vec<(i32, i32)> = Vec::new();
    for y in 0..10i32 {
        for x in 0..10i32 {
            let (dx, dy) = (x - 5, y - 5);
            let inside = match dy.abs() {
                0 => dx.abs() <= 2,
                1 => dx.abs() <= 1,
                2 => dx == 0,
                _ => false,
            };
            if inside {
                expected.push((x, y));
            }
        }
    }
    assert_eq!(painted_set(&b, 10, 10), expected);
    for &(x, y) in &expected {
        assert_eq!(px(&b, 10, x as usize, y as usize), [0x00, 0xFF, 0x00, 0xFF]);
    }
}

#[test]
fn test_circle_outline_symmetry() {
    // the radius-2 outline around (8,8) is invariant under the 8
    // symmetries of the square
    let mut b = buf(17, 17);
    draw_circle(&mut b, pt(17, 17), pt(8, 8), 2, Color::from_u32(RED));
    let set = painted_set(&b, 17, 17);
    let offs: Vec<(i32, i32)> = set.iter().map(|&(x, y)| (x - 8, y - 8)).collect();
    let has = |p: (i32, i32)| offs.contains(&p);
    for &(ox, oy) in &offs {
        assert!(has((oy, ox)));
        assert!(has((-ox, oy)));
        assert!(has((ox, -oy)));
        assert!(has((-oy, -ox)));
    }
    assert_eq!(offs.len(), 8);
}

#[test]
fn test_disc_contains_outline_and_stays_within_radius() {
    for r in 2..=10i32 {
        let w = 31usize;
        let c = 15i32;
        let mut outline = buf(w, w);
        let mut disc = buf(w, w);
        draw_circle(&mut outline, pt(w as i32, w as i32), pt(c, c), r, Color::from_u32(RED));
        draw_filled_circle(&mut disc, pt(w as i32, w as i32), pt(c, c), r, Color::from_u32(RED));
        let o_set = painted_set(&outline, w, w);
        let d_set = painted_set(&disc, w, w);
        for p in &o_set {
            assert!(d_set.contains(p), "outline pixel {:?} missing from disc r={}", p, r);
        }
        for &(x, y) in &d_set {
            assert!((x - c).abs() <= r && (y - c).abs() <= r);
        }
    }
}

#[test]
fn test_circle_radius_zero_paints_center() {
    let mut b = buf(8, 8);
    draw_circle(&mut b, pt(8, 8), pt(3, 4), 0, Color::from_u32(RED));
    assert_eq!(painted_set(&b, 8, 8), vec![(3, 4)]);
    let mut b = buf(8, 8);
    draw_filled_circle(&mut b, pt(8, 8), pt(3, 4), 0, Color::from_u32(RED));
    assert_eq!(painted_set(&b, 8, 8), vec![(3, 4)]);
}

#[test]
fn test_fill_rect_exact() {
    let mut b = buf(12, 12);
    draw_filled_rectangle(&mut b, pt(12, 12), pt(2, 3), pt(4, 5), Color::from_u32(RED));
    let set = painted_set(&b, 12, 12);
    assert_eq!(set.len(), 20);
    for &(x, y) in &set {
        assert!(2 <= x && x < 6 && 3 <= y && y < 8);
    }
}

#[test]
fn test_fill_rect_empty_extent() {
    let mut b = buf(12, 12);
    let before = b.clone();
    draw_filled_rectangle(&mut b, pt(12, 12), pt(2, 3), pt(0, 5), Color::from_u32(RED));
    draw_filled_rectangle(&mut b, pt(12, 12), pt(2, 3), pt(4, -1), Color::from_u32(RED));
    assert_eq!(b, before);
}

#[test]
fn test_triangle_matches_brute_force() {
    // triangle (0,0),(4,0),(0,4) against the brute-force barycentric
    // inside set over its bounding box
    let mut b = buf(10, 10);
    draw_filled_triangle(&mut b, pt(10, 10), pt(0, 0), pt(4, 0), pt(0, 4), Color::from_u32(RED));
    let mut expected: Vec<(i32, i32)> = Vec::new();
    for y in 0..10i32 {
        for x in 0..10i32 {
            if x <= 4 && y <= 4 {
                // d = 16 > 0; all three edge cross products must be >= 0
                let w1 = 4 * y;
                let w2 = (0 - 4) * (y - 0) - (4 - 0) * (x - 4);
                let w3 = 0 * (y - 4) - (0 - 4) * (x - 0);
                if w1 >= 0 && w2 >= 0 && w3 >= 0 {
                    expected.push((x, y));
                }
            }
        }
    }
    assert_eq!(painted_set(&b, 10, 10), expected);
    assert_eq!(expected.len(), 15);
}

#[test]
fn test_triangle_degenerate_paints_nothing() {
    let mut b = buf(10, 10);
    let before = b.clone();
    draw_filled_triangle(&mut b, pt(10, 10), pt(1, 1), pt(3, 3), pt(5, 5), Color::from_u32(RED));
    assert_eq!(b, before);
}

#[test]
fn test_spline_gating() {
    let mut b = buf(16, 16);
    let before = b.clone();
    let pts = vec![pt(1, 1), pt(5, 1), pt(9, 9)];
    draw_uniform_cubic_b_spline(&mut b, pt(16, 16), &pts, Color::from_u32(RED));
    assert_eq!(b, before);
}

#[test]
fn test_spline_draws_connected_run() {
    // four collinear control points on one row: every sample lies on
    // that row, and the polyline covers the middle span without gaps
    let mut b = buf(32, 8);
    let pts = vec![pt(0, 3), pt(9, 3), pt(18, 3), pt(27, 3)];
    draw_uniform_cubic_b_spline(&mut b, pt(32, 8), &pts, Color::from_u32(RED));
    let set = painted_set(&b, 32, 8);
    assert!(!set.is_empty());
    for &(_, y) in &set {
        assert_eq!(y, 3);
    }
    // first sample is at x = (0 + 4*9 + 18)/6 = 9, last approaches 18
    for x in 9..=17i32 {
        assert!(set.contains(&(x, 3)), "missing ({}, 3)", x);
    }
}

#[test]
fn test_bounds_safety_far_outside() {
    // coordinates far outside the canvas must neither crash nor write
    let color = Color::from_u32(RED);
    let mut b = buf(4, 4);
    let before = b.clone();
    draw_line(&mut b, pt(4, 4), pt(-100_000, 70_000), pt(-100_000, -70_000), color);
    draw_circle(&mut b, pt(4, 4), pt(1 << 20, -(1 << 20)), 1000, color);
    draw_filled_circle(&mut b, pt(4, 4), pt(-(1 << 20), 1 << 20), 1000, color);
    draw_filled_rectangle(&mut b, pt(4, 4), pt(100_000, 100_000), pt(50, 50), color);
    draw_filled_triangle(
        &mut b,
        pt(4, 4),
        pt(100_000, 100_000),
        pt(100_050, 100_000),
        pt(100_000, 100_050),
        color,
    );
    draw_pixel(&mut b, pt(4, 4), pt(i32::MAX, i32::MAX), color);
    draw_pixel(&mut b, pt(4, 4), pt(i32::MIN, i32::MIN), color);
    assert_eq!(b, before);

    // an empty buffer takes no write at all
    let mut empty: Vec<u8> = Vec::new();
    draw_line(&mut empty, pt(10, 10), pt(0, 0), pt(9, 9), color);
    assert!(empty.is_empty());
}

#[test]
fn test_bounds_safety_short_buffer() {
    // the buffer is shorter than width*height*4: writes past its end
    // are skipped, writes inside it land
    let mut b = vec![0u8; 8];
    draw_filled_rectangle(&mut b, pt(10, 10), pt(0, 0), pt(10, 10), Color::from_u32(RED));
    assert_eq!(b, vec![0xFF, 0x00, 0x00, 0xFF, 0xFF, 0x00, 0x00, 0xFF]);
}

#[test]
fn test_scene_composition_overwrites_in_order() {
    // primitives compose by painting in call order: later calls win
    let w = 16usize;
    let size = pt(16, 16);
    let mut b = buf(w, w);
    draw_filled_rectangle(&mut b, size, pt(0, 0), size, Color::from_u32(0x005511FF));
    draw_filled_triangle(&mut b, size, pt(15, 0), pt(0, 15), pt(13, 13), Color::from_u32(0x552211FF));
    draw_line(&mut b, size, pt(0, 0), pt(15, 15), Color::from_u32(RED));
    draw_filled_circle(&mut b, size, pt(4, 11), 2, Color::from_u32(0x00FF00FF));
    // background everywhere the later shapes did not reach
    assert_eq!(px(&b, w, 1, 0), [0x00, 0x55, 0x11, 0xFF]);
    // the diagonal line overwrote the background and triangle
    assert_eq!(px(&b, w, 0, 0), [0xFF, 0x00, 0x00, 0xFF]);
    assert_eq!(px(&b, w, 8, 8), [0xFF, 0x00, 0x00, 0xFF]);
    // the disc painted last and overwrote the line's neighbourhood rows
    assert_eq!(px(&b, w, 4, 11), [0x00, 0xFF, 0x00, 0xFF]);
    assert_eq!(px(&b, w, 3, 12), [0x00, 0xFF, 0x00, 0xFF]);
}

#[test]
fn test_rect_clipped_at_canvas_edge() {
    let mut b = buf(4, 4);
    draw_filled_rectangle(&mut b, pt(4, 4), pt(2, 2), pt(50, 50), Color::from_u32(RED));
    let set = painted_set(&b, 4, 4);
    assert_eq!(set, vec![(2, 2), (3, 2), (2, 3), (3, 3)]);
}

#[test]
fn test_line_rounding_differs_between_directions() {
    // for a slope that is neither straight nor an exact diagonal, the
    // two walk directions may round the minor coordinate differently;
    // this pins the actual pixel choice of each direction
    let color = Color::from_u32(RED);
    let mut f = buf(8, 8);
    let mut r = buf(8, 8);
    draw_line(&mut f, pt(8, 8), pt(0, 0), pt(4, 3), color);
    draw_line(&mut r, pt(8, 8), pt(4, 3), pt(0, 0), color);
    assert_eq!(painted_set(&f, 8, 8), vec![(0, 0), (1, 1), (2, 1), (3, 2), (4, 3)]);
    assert_eq!(painted_set(&r, 8, 8), vec![(0, 0), (1, 1), (2, 2), (3, 2), (4, 3)]);
}

//! Line rasterisation (Bresenham's integer algorithm), triangle outlines and
//! horizontal spans, drawn onto an RGBA frame.

use vstd::prelude::*;
use vstd::arithmetic::div_mod::lemma_fundamental_div_mod;
use vstd::arithmetic::div_mod::lemma_fundamental_div_mod_converse;
use crate::frame::{
    draw, draw_pixel, holds_screen, lemma_paint_points_pixels, on_screen, opaque,
    paint_points, pixel_bytes, pixel_offset, points_fit, lemma_paint_pixel, lemma_paint_points_len,
};

verus! {

pub open spec fn abs(v: int) -> int {
    if v < 0 { -v } else { v }
}

/// The two coordinate deltas have the same strict sign; the minor coordinate
/// then moves forward along the line, otherwise backward.
pub open spec fn same_sign(dx: int, dy: int) -> bool {
    (dx < 0 && dy < 0) || (dx > 0 && dy > 0)
}

/// Number of unit steps taken along the minor axis once `k` unit steps have
/// been taken along the major axis, for a line spanning `major` x `minor`
/// steps. This is the rounding of `k * minor / major` to the nearest integer;
/// an exact half rounds up when `bias` is 0 and down when `bias` is 1.
pub open spec fn minor_steps(k: int, major: int, minor: int, bias: int) -> int {
    if major == 0 {
        0
    } else {
        (2 * minor * k + major - bias) / (2 * major)
    }
}

/// `base` moved by `steps` units, forward or backward.
pub open spec fn advance(base: int, steps: int, forward: bool) -> int {
    if forward { base + steps } else { base - steps }
}

/// The points that `draw_line` plots, in plotting order. The line is walked
/// along its longer axis (x when the two spans are equal) from the endpoint
/// with the smaller coordinate on that axis; each step moves that coordinate
/// by one and the other one by the rounded slope.
pub open spec fn line_points(x1: int, y1: int, x2: int, y2: int) -> Seq<(int, int)> {
    let dx = x2 - x1;
    let dy = y2 - y1;
    let fwd = same_sign(dx, dy);
    if abs(dy) <= abs(dx) {
        let xs = if dx >= 0 { x1 } else { x2 };
        let ys = if dx >= 0 { y1 } else { y2 };
        Seq::new(
            (abs(dx) + 1) as nat,
            |k: int| (xs + k, advance(ys, minor_steps(k, abs(dx), abs(dy), 0), fwd)),
        )
    } else {
        let xs = if dy >= 0 { x1 } else { x2 };
        let ys = if dy >= 0 { y1 } else { y2 };
        Seq::new(
            (abs(dy) + 1) as nat,
            |k: int| (advance(xs, minor_steps(k, abs(dy), abs(dx), 1), fwd), ys + k),
        )
    }
}

/// The line's span fits the doubled error terms of the algorithm in `i32`.
pub open spec fn line_fits(x1: int, y1: int, x2: int, y2: int) -> bool {
    2 * abs(x2 - x1) <= i32::MAX && 2 * abs(y2 - y1) <= i32::MAX
}

/// How the number of minor steps grows by one major step, and the range of
/// the error term that decides it.
proof fn lemma_minor_step(k: int, major: int, minor: int, bias: int)
    requires
        0 < major,
        0 <= minor <= major,
        0 <= k,
        bias == 0 || bias == 1,
    ensures
        ({
            let s = minor_steps(k, major, minor, bias);
            let e = 2 * minor * (k + 1) - 2 * major * s - major;
            &&& minor_steps(k + 1, major, minor, bias) == s + (if e >= bias { 1int } else { 0int })
            &&& 2 * minor - 2 * major <= e <= 2 * minor
            &&& 2 * minor * (k + 2) - 2 * major * minor_steps(k + 1, major, minor, bias) - major
                == e + 2 * minor - (if e >= bias { 2 * major } else { 0int })
        }),
{
    let n = 2 * minor * k + major - bias;
    let d = 2 * major;
    lemma_fundamental_div_mod(n, d);
    let q = n / d;
    let r = n % d;
    assert(0 <= r < d);
    assert(n == q * d + r) by (nonlinear_arith)
        requires n == d * (n / d) + (n % d), q == n / d, r == n % d;
    let n2 = 2 * minor * (k + 1) + major - bias;
    assert(n2 == n + 2 * minor) by (nonlinear_arith)
        requires n == 2 * minor * k + major - bias, n2 == 2 * minor * (k + 1) + major - bias;
    let e = 2 * minor * (k + 1) - 2 * major * q - major;
    assert(e == r + 2 * minor + bias - d) by (nonlinear_arith)
        requires
            n == q * d + r,
            n == 2 * minor * k + major - bias,
            d == 2 * major,
            e == 2 * minor * (k + 1) - 2 * major * q - major;
    if r + 2 * minor >= d {
        assert(n2 == (q + 1) * d + (r + 2 * minor - d)) by (nonlinear_arith)
            requires n2 == n + 2 * minor, n == q * d + r;
        lemma_fundamental_div_mod_converse(n2, d, q + 1, r + 2 * minor - d);
        assert(2 * minor * (k + 2) - 2 * major * (q + 1) - major == e + 2 * minor - 2 * major)
            by (nonlinear_arith)
            requires e == 2 * minor * (k + 1) - 2 * major * q - major;
    } else {
        lemma_fundamental_div_mod_converse(n2, d, q, r + 2 * minor);
        assert(2 * minor * (k + 2) - 2 * major * q - major == e + 2 * minor)
            by (nonlinear_arith)
            requires e == 2 * minor * (k + 1) - 2 * major * q - major;
    }
}

/// The minor steps stay between 0 and the minor span, and reach it at the end.
proof fn lemma_minor_steps_range(k: int, major: int, minor: int, bias: int)
    requires
        0 < major,
        0 <= minor <= major,
        0 <= k <= major,
        bias == 0 || bias == 1,
    ensures
        0 <= minor_steps(k, major, minor, bias) <= minor,
        k == major ==> minor_steps(k, major, minor, bias) == minor,
        k == 0 ==> minor_steps(k, major, minor, bias) == 0,
{
    let n = 2 * minor * k + major - bias;
    let d = 2 * major;
    assert(0 <= n < (minor + 1) * d) by (nonlinear_arith)
        requires n == 2 * minor * k + major - bias, d == 2 * major, 0 <= k <= major, 0 <= minor,
            bias == 0 || bias == 1, 0 < major;
    lemma_fundamental_div_mod(n, d);
    let q = n / d;
    assert(0 <= q <= minor) by (nonlinear_arith)
        requires n == d * q + (n % d), 0 <= n % d < d, 0 <= n < (minor + 1) * d, 0 < d;
    if k == 0 {
        lemma_fundamental_div_mod_converse(n, d, 0, major - bias);
    }
    if k == major {
        assert(n == minor * d + (major - bias)) by (nonlinear_arith)
            requires n == 2 * minor * k + major - bias, d == 2 * major, k == major;
        lemma_fundamental_div_mod_converse(n, d, minor, major - bias);
    }
}

/// Plots `(x, y)` when it lies on the screen; a negative coordinate is off
/// screen, as it is for the unsigned conversion that `draw` receives.
fn plot(frame: &mut [u8], x: i32, y: i32, color: (u8, u8, u8), width: i32, height: i32)
    requires
        0 <= width,
        0 <= height,
        on_screen(x as int, y as int, width as int, height as int)
            ==> pixel_offset(x as int, y as int, width as int) + 4 <= old(frame)@.len(),
    ensures
        final(frame)@ == draw_pixel(old(frame)@, x as int, y as int, color, width as int, height as int),
        final(frame)@.len() == old(frame)@.len(),
{
    if x >= 0 && y >= 0 {
        draw(frame, x as usize, y as usize, color, width as usize, height as usize);
    }
}

/// Drawing the prefix of `pts` one point longer draws one more point.
proof fn lemma_paint_one_more(frame: Seq<u8>, pts: Seq<(int, int)>, k: int, color: (u8, u8, u8), width: int, height: int)
    requires
        0 <= k < pts.len(),
    ensures
        paint_points(frame, pts.take(k + 1), color, width, height)
            == draw_pixel(paint_points(frame, pts.take(k), color, width, height), pts[k].0, pts[k].1, color, width, height),
{
    assert(pts.take(k + 1).drop_last() =~= pts.take(k));
}

/// Draws the line from `(x1, y1)` to `(x2, y2)` with Bresenham's algorithm,
/// plotting the points of `line_points` that lie on the screen.
pub fn draw_line(frame: &mut [u8], x1: i32, y1: i32, x2: i32, y2: i32, color: (u8, u8, u8), width: i32, height: i32)
    requires
        0 <= width,
        0 <= height,
        points_fit(line_points(x1 as int, y1 as int, x2 as int, y2 as int), old(frame)@.len() as int, width as int, height as int),
        line_fits(x1 as int, y1 as int, x2 as int, y2 as int),
    ensures
        final(frame)@ == paint_points(old(frame)@, line_points(x1 as int, y1 as int, x2 as int, y2 as int), color, width as int, height as int),
        final(frame)@.len() == old(frame)@.len(),
        on_screen(x1 as int, y1 as int, width as int, height as int)
            ==> pixel_bytes(final(frame)@, x1 as int, y1 as int, width as int) == opaque(color),
        on_screen(x2 as int, y2 as int, width as int, height as int)
            ==> pixel_bytes(final(frame)@, x2 as int, y2 as int, width as int) == opaque(color),
        forall|x: int, y: int|
            on_screen(x, y, width as int, height as int) && pixel_offset(x, y, width as int) + 4 <= old(frame)@.len() ==> {
                &&& #[trigger] pixel_bytes(final(frame)@, x, y, width as int) == opaque(color)
                    || pixel_bytes(final(frame)@, x, y, width as int) == pixel_bytes(old(frame)@, x, y, width as int)
                &&& !(between(x, x1 as int, x2 as int) && between(y, y1 as int, y2 as int))
                    ==> pixel_bytes(final(frame)@, x, y, width as int) == pixel_bytes(old(frame)@, x, y, width as int)
            },
{
    let ghost pts = line_points(x1 as int, y1 as int, x2 as int, y2 as int);
    let ghost start = frame@;
    let ghost w = width as int;
    let ghost h = height as int;
    let dx = x2 - x1;
    let dy = y2 - y1;
    let dx1_abs = if dx < 0 { -dx } else { dx };
    let dy1_abs = if dy < 0 { -dy } else { dy };
    let mut px = 2 * dy1_abs - dx1_abs;
    let mut py = 2 * dx1_abs - dy1_abs;
    let forward = (dx < 0 && dy < 0) || (dx > 0 && dy > 0);
    let ghost adx = dx1_abs as int;
    let ghost ady = dy1_abs as int;
    proof {
        lemma_line_pixels(start, x1 as int, y1 as int, x2 as int, y2 as int, color, w, h);
    }

    if dy1_abs <= dx1_abs {
        let mut x: i32;
        let mut y: i32;
        let xe: i32;
        if dx >= 0 {
            x = x1;
            y = y1;
            xe = x2;
        } else {
            x = x2;
            y = y2;
            xe = x1;
        }
        let ghost xs = x as int;
        let ghost ys = y as int;
        let ghost ye = advance(ys, ady, forward);
        assert(ye == (if dx >= 0 { y2 as int } else { y1 as int }));
        proof {
            if adx > 0 {
                lemma_minor_steps_range(0, adx, ady, 0);
            }
            assert(pts[0].0 == x as int && pts[0].1 == y as int);
        }
        plot(frame, x, y, color, width, height);
        proof {
            lemma_paint_one_more(start, pts, 0, color, w, h);
            assert(pts.take(0) =~= Seq::<(int, int)>::empty());
        }
        let ghost mut k: int = 0;
        while x < xe
            invariant
                frame@.len() == start.len(),
                0 <= w, 0 <= h,
                points_fit(pts, start.len() as int, w, h),
                w == width, h == height,
                pts == line_points(x1 as int, y1 as int, x2 as int, y2 as int),
                pts.len() == adx + 1,
                forall|j: int| 0 <= j < pts.len() ==> #[trigger] pts[j] == (xs + j, advance(ys, minor_steps(j, adx, ady, 0), forward)),
                adx == dx1_abs, ady == dy1_abs, 0 <= ady <= adx, 2 * adx <= i32::MAX, 2 * ady <= i32::MAX,
                xe == xs + adx,
                ye == advance(ys, ady, forward),
                i32::MIN <= ye <= i32::MAX,
                0 <= k <= adx,
                x == xs + k,
                y == advance(ys, minor_steps(k, adx, ady, 0), forward),
                0 <= minor_steps(k, adx, ady, 0) <= ady,
                px == 2 * ady * (k + 1) - 2 * adx * minor_steps(k, adx, ady, 0) - adx,
                2 * ady - 2 * adx <= px <= 2 * ady,
                frame@ == paint_points(start, pts.take(k + 1), color, w, h),
            decreases xe - x,
        {
            proof {
                lemma_minor_step(k, adx, ady, 0);
                lemma_minor_steps_range(k + 1, adx, ady, 0);
            }
            x += 1;
            if px < 0 {
                px = px + 2 * dy1_abs;
            } else {
                if forward {
                    y = y + 1;
                } else {
                    y = y - 1;
                }
                px = px + 2 * (dy1_abs - dx1_abs);
            }
            proof {
                k = k + 1;
                lemma_paint_one_more(start, pts, k, color, w, h);
                assert(pts[k].0 == x as int && pts[k].1 == y as int);
            }
            plot(frame, x, y, color, width, height);
        }
        assert(pts.take(k + 1) =~= pts);
    } else {
        let mut x: i32;
        let mut y: i32;
        let ye: i32;
        if dy >= 0 {
            x = x1;
            y = y1;
            ye = y2;
        } else {
            x = x2;
            y = y2;
            ye = y1;
        }
        let ghost xs = x as int;
        let ghost ys = y as int;
        let ghost xe = advance(xs, adx, forward);
        assert(xe == (if dy >= 0 { x2 as int } else { x1 as int }));
        proof {
            lemma_minor_steps_range(0, ady, adx, 1);
            assert(pts[0].0 == x as int && pts[0].1 == y as int);
        }
        plot(frame, x, y, color, width, height);
        proof {
            lemma_paint_one_more(start, pts, 0, color, w, h);
            assert(pts.take(0) =~= Seq::<(int, int)>::empty());
        }
        let ghost mut k: int = 0;
        while y < ye
            invariant
                frame@.len() == start.len(),
                0 <= w, 0 <= h,
                points_fit(pts, start.len() as int, w, h),
                w == width, h == height,
                pts == line_points(x1 as int, y1 as int, x2 as int, y2 as int),
                pts.len() == ady + 1,
                forall|j: int| 0 <= j < pts.len() ==> #[trigger] pts[j] == (advance(xs, minor_steps(j, ady, adx, 1), forward), ys + j),
                adx == dx1_abs, ady == dy1_abs, 0 <= adx < ady, 2 * adx <= i32::MAX, 2 * ady <= i32::MAX,
                ye == ys + ady,
                xe == advance(xs, adx, forward),
                i32::MIN <= xe <= i32::MAX,
                0 <= k <= ady,
                y == ys + k,
                x == advance(xs, minor_steps(k, ady, adx, 1), forward),
                0 <= minor_steps(k, ady, adx, 1) <= adx,
                py == 2 * adx * (k + 1) - 2 * ady * minor_steps(k, ady, adx, 1) - ady,
                2 * adx - 2 * ady <= py <= 2 * adx,
                frame@ == paint_points(start, pts.take(k + 1), color, w, h),
            decreases ye - y,
        {
            proof {
                lemma_minor_step(k, ady, adx, 1);
                lemma_minor_steps_range(k + 1, ady, adx, 1);
            }
            y += 1;
            if py <= 0 {
                py = py + 2 * dx1_abs;
            } else {
                if forward {
                    x = x + 1;
                } else {
                    x = x - 1;
                }
                py = py + 2 * (dx1_abs - dy1_abs);
            }
            proof {
                k = k + 1;
                lemma_paint_one_more(start, pts, k, color, w, h);
                assert(pts[k].0 == x as int && pts[k].1 == y as int);
            }
            plot(frame, x, y, color, width, height);
        }
        assert(pts.take(k + 1) =~= pts);
    }
}

/// A line has one point per unit of its longer span, endpoints included.
pub proof fn lemma_line_length(x1: int, y1: int, x2: int, y2: int)
    ensures
        line_points(x1, y1, x2, y2).len() == 1 + (if abs(x2 - x1) >= abs(y2 - y1) { abs(x2 - x1) } else { abs(y2 - y1) }),
{
}

/// A line starts at one of its two endpoints and ends at the other.
pub proof fn lemma_line_endpoints(x1: int, y1: int, x2: int, y2: int)
    ensures
        ({
            let pts = line_points(x1, y1, x2, y2);
            ||| pts[0] == (x1, y1) && pts.last() == (x2, y2)
            ||| pts[0] == (x2, y2) && pts.last() == (x1, y1)
        }),
{
    let pts = line_points(x1, y1, x2, y2);
    let dx = x2 - x1;
    let dy = y2 - y1;
    if abs(dy) <= abs(dx) {
        if abs(dx) > 0 {
            lemma_minor_steps_range(0, abs(dx), abs(dy), 0);
            lemma_minor_steps_range(abs(dx), abs(dx), abs(dy), 0);
        }
        assert(pts[0] == pts[0]);
        assert(pts.last() == pts[abs(dx)]);
    } else {
        lemma_minor_steps_range(0, abs(dy), abs(dx), 1);
        lemma_minor_steps_range(abs(dy), abs(dy), abs(dx), 1);
        assert(pts.last() == pts[abs(dy)]);
    }
}

/// Drawing a line from either end plots the same points in the same order.
pub proof fn lemma_line_symmetric(x1: int, y1: int, x2: int, y2: int)
    ensures
        line_points(x1, y1, x2, y2) == line_points(x2, y2, x1, y1),
{
    let a = line_points(x1, y1, x2, y2);
    let b = line_points(x2, y2, x1, y1);
    assert(a =~= b);
}

/// Consecutive points of a line are neighbours: the longer axis advances by
/// exactly one and the other by at most one, so the line has no gaps.
pub proof fn lemma_line_connected(x1: int, y1: int, x2: int, y2: int, k: int)
    requires
        0 <= k,
        k + 1 < line_points(x1, y1, x2, y2).len(),
    ensures
        ({
            let pts = line_points(x1, y1, x2, y2);
            let ddx = pts[k + 1].0 - pts[k].0;
            let ddy = pts[k + 1].1 - pts[k].1;
            &&& -1 <= ddx <= 1
            &&& -1 <= ddy <= 1
            &&& (ddx == 1 || ddy == 1)
        }),
{
    let dx = x2 - x1;
    let dy = y2 - y1;
    if abs(dy) <= abs(dx) {
        lemma_minor_step(k, abs(dx), abs(dy), 0);
    } else {
        lemma_minor_step(k, abs(dy), abs(dx), 1);
    }
}

/// `v` lies between `a` and `b`, both included, in either order.
pub open spec fn between(v: int, a: int, b: int) -> bool {
    (a <= v <= b) || (b <= v <= a)
}

/// Every point of a line lies in the box spanned by its endpoints.
pub proof fn lemma_line_in_box(x1: int, y1: int, x2: int, y2: int, k: int)
    requires
        0 <= k < line_points(x1, y1, x2, y2).len(),
    ensures
        between(line_points(x1, y1, x2, y2)[k].0, x1, x2),
        between(line_points(x1, y1, x2, y2)[k].1, y1, y2),
{
    let dx = x2 - x1;
    let dy = y2 - y1;
    if abs(dy) <= abs(dx) {
        if abs(dx) > 0 {
            lemma_minor_steps_range(k, abs(dx), abs(dy), 0);
        }
    } else {
        lemma_minor_steps_range(k, abs(dy), abs(dx), 1);
    }
}

/// What drawing a line does to the pixels of a frame it fits in: both
/// endpoints that lie on screen become opaque `color`; every other pixel either
/// becomes opaque `color` or keeps its bytes, and keeps them when it lies
/// outside the box spanned by the endpoints.
pub proof fn lemma_line_pixels(
    frame: Seq<u8>,
    x1: int,
    y1: int,
    x2: int,
    y2: int,
    color: (u8, u8, u8),
    width: int,
    height: int,
)
    requires
        0 <= width,
        0 <= height,
        points_fit(line_points(x1, y1, x2, y2), frame.len() as int, width, height),
    ensures
        ({
            let out = paint_points(frame, line_points(x1, y1, x2, y2), color, width, height);
            &&& out.len() == frame.len()
            &&& on_screen(x1, y1, width, height) ==> pixel_bytes(out, x1, y1, width) == opaque(color)
            &&& on_screen(x2, y2, width, height) ==> pixel_bytes(out, x2, y2, width) == opaque(color)
            &&& forall|x: int, y: int|
                on_screen(x, y, width, height) && pixel_offset(x, y, width) + 4 <= frame.len() ==> {
                    &&& #[trigger] pixel_bytes(out, x, y, width) == opaque(color)
                        || pixel_bytes(out, x, y, width) == pixel_bytes(frame, x, y, width)
                    &&& !(between(x, x1, x2) && between(y, y1, y2))
                        ==> pixel_bytes(out, x, y, width) == pixel_bytes(frame, x, y, width)
                }
        }),
{
    let pts = line_points(x1, y1, x2, y2);
    let out = paint_points(frame, pts, color, width, height);
    lemma_paint_points_len(frame, pts, color, width, height);
    lemma_line_endpoints(x1, y1, x2, y2);
    let last = pts.len() - 1;
    if on_screen(x1, y1, width, height) {
        let k = if pts[0] == (x1, y1) { 0 } else { last };
        assert(pts[k] == (x1, y1));
        assert(pts[k].0 == x1 && pts[k].1 == y1);
        assert(pts.contains((x1, y1)));
        lemma_paint_pixel(frame, pts, color, width, height, x1, y1);
    }
    if on_screen(x2, y2, width, height) {
        let k = if pts[0] == (x2, y2) { 0 } else { last };
        assert(pts[k] == (x2, y2));
        assert(pts[k].0 == x2 && pts[k].1 == y2);
        assert(pts.contains((x2, y2)));
        lemma_paint_pixel(frame, pts, color, width, height, x2, y2);
    }
    assert forall|x: int, y: int|
        on_screen(x, y, width, height) && pixel_offset(x, y, width) + 4 <= frame.len() implies {
            &&& #[trigger] pixel_bytes(out, x, y, width) == opaque(color)
                || pixel_bytes(out, x, y, width) == pixel_bytes(frame, x, y, width)
            &&& !(between(x, x1, x2) && between(y, y1, y2))
                ==> pixel_bytes(out, x, y, width) == pixel_bytes(frame, x, y, width)
        } by {
        lemma_paint_pixel(frame, pts, color, width, height, x, y);
        if pts.contains((x, y)) {
            let k = choose|k: int| 0 <= k < pts.len() && pts[k] == (x, y);
            lemma_line_in_box(x1, y1, x2, y2, k);
        }
    }
}

/// The endpoints of a line that fits in a frame lie inside the frame when
/// they lie on screen.
pub proof fn lemma_endpoints_fit(x1: int, y1: int, x2: int, y2: int, len: int, width: int, height: int)
    requires
        points_fit(line_points(x1, y1, x2, y2), len, width, height),
    ensures
        on_screen(x1, y1, width, height) ==> pixel_offset(x1, y1, width) + 4 <= len,
        on_screen(x2, y2, width, height) ==> pixel_offset(x2, y2, width) + 4 <= len,
{
    let pts = line_points(x1, y1, x2, y2);
    lemma_line_endpoints(x1, y1, x2, y2);
    let last = pts.len() - 1;
    if on_screen(x1, y1, width, height) {
        let k = if pts[0] == (x1, y1) { 0 } else { last };
        assert(pts[k].0 == x1 && pts[k].1 == y1);
    }
    if on_screen(x2, y2, width, height) {
        let k = if pts[0] == (x2, y2) { 0 } else { last };
        assert(pts[k].0 == x2 && pts[k].1 == y2);
    }
}

/// A drawn line colours both of its endpoints wherever they lie on screen.
pub proof fn lemma_line_endpoints_drawn(
    frame: Seq<u8>,
    x1: int,
    y1: int,
    x2: int,
    y2: int,
    color: (u8, u8, u8),
    width: int,
    height: int,
)
    requires
        holds_screen(frame.len() as int, width, height),
    ensures
        ({
            let out = paint_points(frame, line_points(x1, y1, x2, y2), color, width, height);
            &&& (0 <= x1 < width && 0 <= y1 < height ==> pixel_bytes(out, x1, y1, width) == opaque(color))
            &&& (0 <= x2 < width && 0 <= y2 < height ==> pixel_bytes(out, x2, y2, width) == opaque(color))
        }),
{
    let pts = line_points(x1, y1, x2, y2);
    lemma_line_endpoints(x1, y1, x2, y2);
    lemma_paint_points_pixels(frame, pts, color, width, height);
    assert(pts.contains(pts[0]));
    assert(pts.contains(pts[pts.len() - 1]));
    if 0 <= x1 < width && 0 <= y1 < height {
        assert(pixel_bytes(paint_points(frame, pts, color, width, height), x1, y1, width) == opaque(color));
    }
    if 0 <= x2 < width && 0 <= y2 < height {
        assert(pixel_bytes(paint_points(frame, pts, color, width, height), x2, y2, width) == opaque(color));
    }
}

/// The outline of a triangle: its three edges in drawing order.
pub open spec fn outline(frame: Seq<u8>, x1: int, y1: int, x2: int, y2: int, x3: int, y3: int, color: (u8, u8, u8), width: int, height: int) -> Seq<u8> {
    let f1 = paint_points(frame, line_points(x1, y1, x2, y2), color, width, height);
    let f2 = paint_points(f1, line_points(x2, y2, x3, y3), color, width, height);
    paint_points(f2, line_points(x3, y3, x1, y1), color, width, height)
}

/// Each corner of a drawn triangle outline that lies on screen is coloured.
pub proof fn lemma_outline_corners_drawn(
    frame: Seq<u8>,
    x1: int,
    y1: int,
    x2: int,
    y2: int,
    x3: int,
    y3: int,
    color: (u8, u8, u8),
    width: int,
    height: int,
)
    requires
        holds_screen(frame.len() as int, width, height),
    ensures
        ({
            let out = outline(frame, x1, y1, x2, y2, x3, y3, color, width, height);
            &&& (0 <= x1 < width && 0 <= y1 < height ==> pixel_bytes(out, x1, y1, width) == opaque(color))
            &&& (0 <= x2 < width && 0 <= y2 < height ==> pixel_bytes(out, x2, y2, width) == opaque(color))
            &&& (0 <= x3 < width && 0 <= y3 < height ==> pixel_bytes(out, x3, y3, width) == opaque(color))
        }),
{
    let f1 = paint_points(frame, line_points(x1, y1, x2, y2), color, width, height);
    let f2 = paint_points(f1, line_points(x2, y2, x3, y3), color, width, height);
    lemma_line_endpoints_drawn(frame, x1, y1, x2, y2, color, width, height);
    lemma_paint_points_pixels(frame, line_points(x1, y1, x2, y2), color, width, height);
    lemma_line_endpoints_drawn(f1, x2, y2, x3, y3, color, width, height);
    lemma_paint_points_pixels(f1, line_points(x2, y2, x3, y3), color, width, height);
    lemma_line_endpoints_drawn(f2, x3, y3, x1, y1, color, width, height);
    lemma_paint_points_pixels(f2, line_points(x3, y3, x1, y1), color, width, height);
}

/// Draws the outline of the triangle with corners `(x1, y1)`, `(x2, y2)`, `(x3, y3)`.
pub fn draw_triangle(
    frame: &mut [u8],
    x1: i32,
    y1: i32,
    x2: i32,
    y2: i32,
    x3: i32,
    y3: i32,
    color: (u8, u8, u8),
    width: i32,
    height: i32,
)
    requires
        0 <= width,
        0 <= height,
        points_fit(line_points(x1 as int, y1 as int, x2 as int, y2 as int), old(frame)@.len() as int, width as int, height as int),
        points_fit(line_points(x2 as int, y2 as int, x3 as int, y3 as int), old(frame)@.len() as int, width as int, height as int),
        points_fit(line_points(x3 as int, y3 as int, x1 as int, y1 as int), old(frame)@.len() as int, width as int, height as int),
        line_fits(x1 as int, y1 as int, x2 as int, y2 as int),
        line_fits(x2 as int, y2 as int, x3 as int, y3 as int),
        line_fits(x3 as int, y3 as int, x1 as int, y1 as int),
    ensures
        final(frame)@ == outline(old(frame)@, x1 as int, y1 as int, x2 as int, y2 as int, x3 as int, y3 as int, color, width as int, height as int),
        final(frame)@.len() == old(frame)@.len(),
        on_screen(x1 as int, y1 as int, width as int, height as int)
            ==> pixel_bytes(final(frame)@, x1 as int, y1 as int, width as int) == opaque(color),
        on_screen(x2 as int, y2 as int, width as int, height as int)
            ==> pixel_bytes(final(frame)@, x2 as int, y2 as int, width as int) == opaque(color),
        on_screen(x3 as int, y3 as int, width as int, height as int)
            ==> pixel_bytes(final(frame)@, x3 as int, y3 as int, width as int) == opaque(color),
{
    proof {
        let len = frame@.len() as int;
        lemma_endpoints_fit(x1 as int, y1 as int, x2 as int, y2 as int, len, width as int, height as int);
        lemma_endpoints_fit(x2 as int, y2 as int, x3 as int, y3 as int, len, width as int, height as int);
    }
    draw_line(frame, x1, y1, x2, y2, color, width, height);
    draw_line(frame, x2, y2, x3, y3, color, width, height);
    draw_line(frame, x3, y3, x1, y1, color, width, height);
}

/// The pixels `(sx, ny)` to `(ex, ny)` of a horizontal span, left to right;
/// empty when `sx > ex`.
pub open spec fn span_points(sx: int, ex: int, ny: int) -> Seq<(int, int)> {
    Seq::new(if ex >= sx { (ex - sx + 1) as nat } else { 0nat }, |k: int| (sx + k, ny))
}

/// Draws the horizontal span from `(sx, ny)` to `(ex, ny)`, both ends included.
pub fn fill_line(frame: &mut [u8], sx: i32, ex: i32, ny: i32, color: (u8, u8, u8), width: i32, height: i32)
    requires
        0 <= width,
        0 <= height,
        points_fit(span_points(sx as int, ex as int, ny as int), old(frame)@.len() as int, width as int, height as int),
        ex < i32::MAX,
    ensures
        final(frame)@ == paint_points(old(frame)@, span_points(sx as int, ex as int, ny as int), color, width as int, height as int),
        final(frame)@.len() == old(frame)@.len(),
        forall|x: int, y: int|
            on_screen(x, y, width as int, height as int) && pixel_offset(x, y, width as int) + 4 <= old(frame)@.len()
                ==> #[trigger] pixel_bytes(final(frame)@, x, y, width as int)
                    == (if y == ny && sx <= x <= ex { opaque(color) } else { pixel_bytes(old(frame)@, x, y, width as int) }),
{
    let ghost pts = span_points(sx as int, ex as int, ny as int);
    let ghost start = frame@;
    let end = ex + 1;
    let mut i = sx;
    proof {
        assert(pts.take(0) =~= Seq::<(int, int)>::empty());
    }
    while i < end
        invariant
            frame@.len() == start.len(),
            0 <= width, 0 <= height,
            points_fit(pts, start.len() as int, width as int, height as int),
            pts == span_points(sx as int, ex as int, ny as int),
            end == ex + 1,
            sx <= i <= end || (i == sx && sx > end),
            i < end ==> i - sx < pts.len(),
            frame@ == paint_points(start, pts.take(i - sx), color, width as int, height as int),
        decreases end - i,
    {
        proof {
            lemma_paint_one_more(start, pts, i - sx, color, width as int, height as int);
            assert(pts[i - sx].0 == i as int && pts[i - sx].1 == ny as int);
        }
        plot(frame, i, ny, color, width, height);
        i = i + 1;
    }
    if sx <= end {
        assert(pts.take(i - sx) =~= pts);
    } else {
        assert(pts =~= Seq::<(int, int)>::empty());
    }
    assert forall|x: int, y: int|
        on_screen(x, y, width as int, height as int) && pixel_offset(x, y, width as int) + 4 <= start.len()
            implies #[trigger] pixel_bytes(frame@, x, y, width as int)
                == (if y == ny && sx <= x <= ex { opaque(color) } else { pixel_bytes(start, x, y, width as int) }) by {
        lemma_paint_pixel(start, pts, color, width as int, height as int, x, y);
        if y == ny && sx <= x <= ex {
            assert(pts[x - sx] == (x, y));
        } else if pts.contains((x, y)) {
            let k = choose|k: int| 0 <= k < pts.len() && pts[k] == (x, y);
            assert(pts[k] == (sx + k, ny as int));
        }
    }
}

} // verus!

//! Pixel operations on an RGBA frame buffer stored row-major, four bytes per
//! pixel (red, green, blue, alpha).

use vstd::prelude::*;

verus! {

/// Byte offset of the pixel at column `x`, row `y` in a frame of the given width.
pub open spec fn pixel_offset(x: int, y: int, width: int) -> int {
    (y * width + x) * 4
}

/// `frame` after writing the opaque colour `(r, g, b)` to the pixel whose
/// first byte is at `i`.
pub open spec fn write_pixel(frame: Seq<u8>, i: int, r: u8, g: u8, b: u8) -> Seq<u8> {
    frame.update(i, r).update(i + 1, g).update(i + 2, b).update(i + 3, 255u8)
}

/// Writes the opaque colour `(r, g, b)` to the pixel at `(x, y)`.
pub fn set_pixel(frame: &mut [u8], x: usize, y: usize, width: usize, r: u8, g: u8, b: u8)
    requires
        pixel_offset(x as int, y as int, width as int) + 4 <= old(frame)@.len(),
    ensures
        final(frame)@ == write_pixel(old(frame)@, pixel_offset(x as int, y as int, width as int), r, g, b),
        final(frame)@.len() == old(frame)@.len(),
        pixel_bytes(final(frame)@, x as int, y as int, width as int) == opaque((r, g, b)),
        forall|j: int|
            0 <= j < old(frame)@.len() && !(pixel_offset(x as int, y as int, width as int) <= j < pixel_offset(x as int, y as int, width as int) + 4)
                ==> #[trigger] final(frame)@[j] == old(frame)@[j],
{
    // The frame's length is a usize, which bounds the offset below.
    let _len = frame.len();
    proof {
        assert(0 <= y * width <= y * width + x) by (nonlinear_arith);
    }
    let i = (y * width + x) * 4;
    frame[i] = r;
    frame[i + 1] = g;
    frame[i + 2] = b;
    frame[i + 3] = 255;
    proof {
        assert(pixel_bytes(frame@, x as int, y as int, width as int) =~= opaque((r, g, b)));
    }
}

/// The frame `before` with every complete four-byte pixel made opaque black;
/// a trailing partial pixel is kept.
pub open spec fn cleared(before: Seq<u8>) -> Seq<u8> {
    Seq::new(
        before.len(),
        |k: int|
            if k < before.len() - before.len() % 4 {
                if k % 4 == 3 { 255u8 } else { 0u8 }
            } else {
                before[k]
            },
    )
}

/// After clearing, every complete pixel of the frame is opaque black.
pub proof fn lemma_cleared_pixels(before: Seq<u8>, i: int)
    requires
        0 <= i,
        4 * i + 4 <= before.len(),
    ensures
        cleared(before).subrange(4 * i, 4 * i + 4) == opaque((0u8, 0u8, 0u8)),
{
    let n = before.len() as int;
    assert(4 * i + 4 <= n - n % 4) by {
        assert(n == 4 * (n / 4) + n % 4);
        assert(i + 1 <= n / 4);
    }
    assert(cleared(before).subrange(4 * i, 4 * i + 4) =~= opaque((0u8, 0u8, 0u8)));
}

/// Blacks out the screen: every complete pixel becomes opaque black.
pub fn reset_screen(frame: &mut [u8])
    ensures
        final(frame)@ == cleared(old(frame)@),
        final(frame)@.len() == old(frame)@.len(),
        forall|i: int|
            0 <= i && 4 * i + 4 <= old(frame)@.len()
                ==> #[trigger] final(frame)@.subrange(4 * i, 4 * i + 4) == opaque((0u8, 0u8, 0u8)),
        forall|j: int|
            old(frame)@.len() - old(frame)@.len() % 4 <= j < old(frame)@.len()
                ==> #[trigger] final(frame)@[j] == old(frame)@[j],
{
    let len = frame.len();
    let full = len - len % 4;
    let mut i: usize = 0;
    while i < full
        invariant
            frame@.len() == len,
            len == old(frame)@.len(),
            full == len - len % 4,
            i % 4 == 0,
            i <= full,
            forall|k: int| 0 <= k < i ==> #[trigger] frame@[k] == cleared(old(frame)@)[k],
            forall|k: int| i <= k < len ==> #[trigger] frame@[k] == old(frame)@[k],
        decreases full - i,
    {
        frame[i] = 0;
        frame[i + 1] = 0;
        frame[i + 2] = 0;
        frame[i + 3] = 255;
        i = i + 4;
    }
    assert(frame@ =~= cleared(old(frame)@));
    assert forall|i: int|
        0 <= i && 4 * i + 4 <= old(frame)@.len()
            implies #[trigger] frame@.subrange(4 * i, 4 * i + 4) == opaque((0u8, 0u8, 0u8)) by {
        lemma_cleared_pixels(old(frame)@, i);
    }
}

/// `frame` after drawing the pixel `(x, y)` in `color`: the pixel is written
/// when it lies inside the `width` x `height` screen, and nothing changes
/// otherwise.
pub open spec fn draw_pixel(frame: Seq<u8>, x: int, y: int, color: (u8, u8, u8), width: int, height: int) -> Seq<u8> {
    if 0 <= x < width && 0 <= y < height {
        write_pixel(frame, pixel_offset(x, y, width), color.0, color.1, color.2)
    } else {
        frame
    }
}

/// `frame` after drawing each point of `pts` in turn.
pub open spec fn paint_points(frame: Seq<u8>, pts: Seq<(int, int)>, color: (u8, u8, u8), width: int, height: int) -> Seq<u8>
    decreases pts.len(),
{
    if pts.len() == 0 {
        frame
    } else {
        draw_pixel(
            paint_points(frame, pts.drop_last(), color, width, height),
            pts.last().0,
            pts.last().1,
            color,
            width,
            height,
        )
    }
}

/// A frame of `len` bytes holds a whole `width` x `height` screen.
pub open spec fn holds_screen(len: int, width: int, height: int) -> bool {
    0 <= width && 0 <= height && width * height * 4 <= len
}

/// The pixel `(x, y)` lies on the `width` x `height` screen.
pub open spec fn on_screen(x: int, y: int, width: int, height: int) -> bool {
    0 <= x < width && 0 <= y < height
}

/// Every point of `pts` that lies on the screen lies inside a frame of `len`
/// bytes, so drawing `pts` stays inside the frame.
pub open spec fn points_fit(pts: Seq<(int, int)>, len: int, width: int, height: int) -> bool {
    forall|k: int|
        0 <= k < pts.len() && on_screen(pts[k].0, pts[k].1, width, height)
            ==> pixel_offset(#[trigger] pts[k].0, pts[k].1, width) + 4 <= len
}

/// In a frame that holds the whole screen, any points fit.
pub proof fn lemma_screen_fits_points(pts: Seq<(int, int)>, len: int, width: int, height: int)
    requires
        holds_screen(len, width, height),
    ensures
        points_fit(pts, len, width, height),
{
    assert forall|k: int|
        0 <= k < pts.len() && on_screen(pts[k].0, pts[k].1, width, height)
            implies pixel_offset(#[trigger] pts[k].0, pts[k].1, width) + 4 <= len by {
        lemma_screen_pixel_in_frame(len, pts[k].0, pts[k].1, width, height);
    }
}

/// Every pixel of a screen that a frame holds lies inside the frame.
pub proof fn lemma_screen_pixel_in_frame(len: int, x: int, y: int, width: int, height: int)
    requires
        holds_screen(len, width, height),
        0 <= x < width,
        0 <= y < height,
    ensures
        0 <= pixel_offset(x, y, width),
        pixel_offset(x, y, width) + 4 <= len,
{
    assert(0 <= y * width) by (nonlinear_arith)
        requires 0 <= y, 0 <= width;
    assert(y * width + x + 1 <= height * width) by (nonlinear_arith)
        requires 0 <= x < width, 0 <= y < height;
}

/// The four bytes of the pixel at `(x, y)`.
pub open spec fn pixel_bytes(frame: Seq<u8>, x: int, y: int, width: int) -> Seq<u8> {
    frame.subrange(pixel_offset(x, y, width), pixel_offset(x, y, width) + 4)
}

/// The four bytes of an opaque pixel of colour `color`.
pub open spec fn opaque(color: (u8, u8, u8)) -> Seq<u8> {
    seq![color.0, color.1, color.2, 255u8]
}

/// Distinct pixels of a screen have distinct positions in the frame.
proof fn lemma_pixel_index_injective(x1: int, y1: int, x2: int, y2: int, width: int)
    requires
        0 <= x1 < width,
        0 <= x2 < width,
        0 <= y1,
        0 <= y2,
        y1 * width + x1 == y2 * width + x2,
    ensures
        x1 == x2 && y1 == y2,
{
    if y1 < y2 {
        assert(y1 * width + x1 < y2 * width + x2) by (nonlinear_arith)
            requires y1 < y2, 0 <= x1 < width, 0 <= x2;
    } else if y2 < y1 {
        assert(y2 * width + x2 < y1 * width + x1) by (nonlinear_arith)
            requires y2 < y1, 0 <= x2 < width, 0 <= x1;
    }
}

/// Drawing a sequence of points colours exactly the on-screen pixels that
/// occur in it: those pixels become opaque `color`, every other pixel and
/// every byte past the screen keep their value. In particular the order in
/// which the points are drawn, and repeated points, make no difference.
pub proof fn lemma_paint_points_pixels(frame: Seq<u8>, pts: Seq<(int, int)>, color: (u8, u8, u8), width: int, height: int)
    requires
        holds_screen(frame.len() as int, width, height),
    ensures
        paint_points(frame, pts, color, width, height).len() == frame.len(),
        forall|x: int, y: int|
            0 <= x < width && 0 <= y < height ==>
            #[trigger] pixel_bytes(paint_points(frame, pts, color, width, height), x, y, width)
                == (if pts.contains((x, y)) { opaque(color) } else { pixel_bytes(frame, x, y, width) }),
        forall|j: int|
            width * height * 4 <= j < frame.len() ==>
            #[trigger] paint_points(frame, pts, color, width, height)[j] == frame[j],
    decreases pts.len(),
{
    if pts.len() > 0 {
        let prev_pts = pts.drop_last();
        let p = pts.last();
        lemma_paint_points_pixels(frame, prev_pts, color, width, height);
        let prev = paint_points(frame, prev_pts, color, width, height);
        let out = paint_points(frame, pts, color, width, height);
        assert(out == draw_pixel(prev, p.0, p.1, color, width, height));
        let on_screen = 0 <= p.0 < width && 0 <= p.1 < height;
        let o = pixel_offset(p.0, p.1, width);
        if on_screen {
            lemma_screen_pixel_in_frame(frame.len() as int, p.0, p.1, width, height);
            assert(o + 4 <= width * height * 4) by (nonlinear_arith)
                requires o == (p.1 * width + p.0) * 4, 0 <= p.0 < width, 0 <= p.1 < height;
        }
        assert forall|x: int, y: int|
            0 <= x < width && 0 <= y < height implies
            #[trigger] pixel_bytes(out, x, y, width)
                == (if pts.contains((x, y)) { opaque(color) } else { pixel_bytes(frame, x, y, width) })
        by {
            lemma_screen_pixel_in_frame(frame.len() as int, x, y, width, height);
            assert(pts.contains((x, y)) == (prev_pts.contains((x, y)) || p == (x, y))) by {
                if pts.contains((x, y)) {
                    let i = choose|i: int| 0 <= i < pts.len() && pts[i] == (x, y);
                    if i < pts.len() - 1 {
                        assert(prev_pts[i] == (x, y));
                    }
                }
                if prev_pts.contains((x, y)) {
                    let i = choose|i: int| 0 <= i < prev_pts.len() && prev_pts[i] == (x, y);
                    assert(pts[i] == (x, y));
                }
                if p == (x, y) {
                    assert(pts[pts.len() - 1] == (x, y));
                }
            }
            let q = pixel_offset(x, y, width);
            if p == (x, y) {
                assert(pixel_bytes(out, x, y, width) =~= opaque(color));
            } else if on_screen {
                if y * width + x == p.1 * width + p.0 {
                    lemma_pixel_index_injective(x, y, p.0, p.1, width);
                }
                assert(y * width + x != p.1 * width + p.0);
                assert(q + 4 <= o || o + 4 <= q);
                assert(pixel_bytes(out, x, y, width) =~= pixel_bytes(prev, x, y, width));
            }
        }
    }
}

/// Drawing points that fit in the frame keeps its length.
pub proof fn lemma_paint_points_len(frame: Seq<u8>, pts: Seq<(int, int)>, color: (u8, u8, u8), width: int, height: int)
    requires
        0 <= width,
        0 <= height,
        points_fit(pts, frame.len() as int, width, height),
    ensures
        paint_points(frame, pts, color, width, height).len() == frame.len(),
    decreases pts.len(),
{
    if pts.len() > 0 {
        let prev_pts = pts.drop_last();
        assert forall|k: int|
            0 <= k < prev_pts.len() && on_screen(prev_pts[k].0, prev_pts[k].1, width, height)
                implies pixel_offset(#[trigger] prev_pts[k].0, prev_pts[k].1, width) + 4 <= frame.len() by {
            assert(prev_pts[k] == pts[k]);
            assert(pts[k].0 == prev_pts[k].0);
        }
        lemma_paint_points_len(frame, prev_pts, color, width, height);
        let p = pts[pts.len() - 1];
        assert(p.0 == pts[pts.len() - 1].0);
        if on_screen(p.0, p.1, width, height) {
            assert(0 <= p.1 * width) by (nonlinear_arith)
                requires 0 <= p.1, 0 <= width;
        }
    }
}

/// The pixel `(x, y)` after drawing points that fit in the frame: opaque
/// `color` when it is one of the points, unchanged otherwise.
pub proof fn lemma_paint_pixel(
    frame: Seq<u8>,
    pts: Seq<(int, int)>,
    color: (u8, u8, u8),
    width: int,
    height: int,
    x: int,
    y: int,
)
    requires
        0 <= width,
        0 <= height,
        points_fit(pts, frame.len() as int, width, height),
        on_screen(x, y, width, height),
        pixel_offset(x, y, width) + 4 <= frame.len(),
    ensures
        pixel_bytes(paint_points(frame, pts, color, width, height), x, y, width)
            == (if pts.contains((x, y)) { opaque(color) } else { pixel_bytes(frame, x, y, width) }),
    decreases pts.len(),
{
    if pts.len() > 0 {
        let prev_pts = pts.drop_last();
        let p = pts[pts.len() - 1];
        assert forall|k: int|
            0 <= k < prev_pts.len() && on_screen(prev_pts[k].0, prev_pts[k].1, width, height)
                implies pixel_offset(#[trigger] prev_pts[k].0, prev_pts[k].1, width) + 4 <= frame.len() by {
            assert(prev_pts[k] == pts[k]);
            assert(pts[k].0 == prev_pts[k].0);
        }
        lemma_paint_points_len(frame, prev_pts, color, width, height);
        lemma_paint_pixel(frame, prev_pts, color, width, height, x, y);
        let prev = paint_points(frame, prev_pts, color, width, height);
        let out = paint_points(frame, pts, color, width, height);
        assert(out == draw_pixel(prev, p.0, p.1, color, width, height));
        assert(0 <= y * width) by (nonlinear_arith)
            requires 0 <= y, 0 <= width;
        assert(pts.contains((x, y)) == (prev_pts.contains((x, y)) || p == (x, y))) by {
            if pts.contains((x, y)) {
                let i = choose|i: int| 0 <= i < pts.len() && pts[i] == (x, y);
                if i < pts.len() - 1 {
                    assert(prev_pts[i] == (x, y));
                }
            }
            if prev_pts.contains((x, y)) {
                let i = choose|i: int| 0 <= i < prev_pts.len() && prev_pts[i] == (x, y);
                assert(pts[i] == (x, y));
            }
        }
        if on_screen(p.0, p.1, width, height) {
            assert(p.0 == pts[pts.len() - 1].0);
            let o = pixel_offset(p.0, p.1, width);
            let q = pixel_offset(x, y, width);
            assert(0 <= p.1 * width) by (nonlinear_arith)
                requires 0 <= p.1, 0 <= width;
            if p == (x, y) {
                assert(pixel_bytes(out, x, y, width) =~= opaque(color));
            } else {
                if y * width + x == p.1 * width + p.0 {
                    lemma_pixel_index_injective(x, y, p.0, p.1, width);
                }
                assert(q + 4 <= o || o + 4 <= q);
                assert(pixel_bytes(out, x, y, width) =~= pixel_bytes(prev, x, y, width));
            }
        }
    }
}

/// Draws the pixel `(x, y)` in `color` when it lies inside the screen.
pub fn draw(frame: &mut [u8], x: usize, y: usize, color: (u8, u8, u8), width: usize, height: usize)
    requires
        x < width && y < height ==> pixel_offset(x as int, y as int, width as int) + 4 <= old(frame)@.len(),
    ensures
        final(frame)@ == draw_pixel(old(frame)@, x as int, y as int, color, width as int, height as int),
        final(frame)@.len() == old(frame)@.len(),
        x < width && y < height ==> pixel_bytes(final(frame)@, x as int, y as int, width as int) == opaque(color),
        !(x < width && y < height) ==> final(frame)@ == old(frame)@,
{
    if x < width && y < height {
        set_pixel(frame, x, y, width, color.0, color.1, color.2);
    }
}

/// Has no effect; surfaces are coloured where they are shaded.
pub fn get_color() {
}

} // verus!

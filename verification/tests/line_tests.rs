use raster3d::line::{draw_line, draw_triangle, fill_line};

const W: i32 = 8;
const H: i32 = 6;

fn blank() -> Vec<u8> {
    vec![0u8; (W * H * 4) as usize]
}

/// The on-screen pixels of `frame` that carry `color`, in row-major order.
fn lit(frame: &[u8], color: (u8, u8, u8)) -> Vec<(i32, i32)> {
    let mut out = Vec::new();
    for y in 0..H {
        for x in 0..W {
            let i = ((y * W + x) * 4) as usize;
            if frame[i] == color.0 && frame[i + 1] == color.1 && frame[i + 2] == color.2 && frame[i + 3] == 255 {
                out.push((x, y));
            }
        }
    }
    out
}

fn sorted(mut v: Vec<(i32, i32)>) -> Vec<(i32, i32)> {
    v.sort_by_key(|p| (p.1, p.0));
    v
}

const C: (u8, u8, u8) = (200, 100, 50);

#[test]
fn shallow_line_rounds_half_up() {
    let mut f = blank();
    draw_line(&mut f, 0, 0, 4, 2, C, W, H);
    assert_eq!(lit(&f, C), sorted(vec![(0, 0), (1, 1), (2, 1), (3, 2), (4, 2)]));
}

#[test]
fn steep_line_rounds_half_down() {
    let mut f = blank();
    draw_line(&mut f, 0, 0, 1, 2, C, W, H);
    assert_eq!(lit(&f, C), sorted(vec![(0, 0), (0, 1), (1, 2)]));
}

#[test]
fn line_is_the_same_from_either_end() {
    let pairs = [((0, 0), (7, 3)), ((1, 5), (6, 0)), ((2, 0), (3, 5)), ((7, 5), (0, 1)), ((3, 3), (3, 3))];
    for ((x1, y1), (x2, y2)) in pairs {
        let mut a = blank();
        let mut b = blank();
        draw_line(&mut a, x1, y1, x2, y2, C, W, H);
        draw_line(&mut b, x2, y2, x1, y1, C, W, H);
        assert_eq!(a, b);
    }
}

#[test]
fn line_includes_endpoints_and_has_no_gaps() {
    let mut f = blank();
    draw_line(&mut f, 1, 4, 7, 1, C, W, H);
    let pts = lit(&f, C);
    assert!(pts.contains(&(1, 4)));
    assert!(pts.contains(&(7, 1)));
    assert_eq!(pts.len(), 7);
    for x in 1..=7 {
        assert_eq!(pts.iter().filter(|p| p.0 == x).count(), 1);
    }
}

#[test]
fn diagonal_line() {
    let mut f = blank();
    draw_line(&mut f, 3, 3, 0, 0, C, W, H);
    assert_eq!(lit(&f, C), vec![(0, 0), (1, 1), (2, 2), (3, 3)]);
}

#[test]
fn anti_diagonal_line() {
    let mut f = blank();
    draw_line(&mut f, 0, 3, 3, 0, C, W, H);
    assert_eq!(lit(&f, C), sorted(vec![(0, 3), (1, 2), (2, 1), (3, 0)]));
}

#[test]
fn vertical_line() {
    let mut f = blank();
    draw_line(&mut f, 2, 4, 2, 1, C, W, H);
    assert_eq!(lit(&f, C), vec![(2, 1), (2, 2), (2, 3), (2, 4)]);
}

#[test]
fn single_point_line() {
    let mut f = blank();
    draw_line(&mut f, 5, 5, 5, 5, C, W, H);
    assert_eq!(lit(&f, C), vec![(5, 5)]);
}

#[test]
fn line_leaving_the_screen_is_clipped() {
    let mut f = blank();
    draw_line(&mut f, -3, 2, 10, 2, C, W, H);
    assert_eq!(lit(&f, C), (0..W).map(|x| (x, 2)).collect::<Vec<_>>());
    let mut g = blank();
    draw_line(&mut g, -5, -5, -1, -1, C, W, H);
    assert!(g.iter().all(|b| *b == 0));
}

#[test]
fn line_keeps_other_bytes() {
    let mut f = vec![9u8; (W * H * 4) as usize + 3];
    draw_line(&mut f, 0, 0, 1, 0, C, W, H);
    assert_eq!(&f[0..8], &[200, 100, 50, 255, 200, 100, 50, 255]);
    assert!(f[8..].iter().all(|b| *b == 9));
}

#[test]
fn triangle_outline_draws_three_edges() {
    let mut f = blank();
    draw_triangle(&mut f, 0, 0, 4, 0, 0, 4, C, W, H);
    let mut expected = Vec::new();
    for x in 0..=4 {
        expected.push((x, 0));
    }
    for k in 1..=4 {
        expected.push((0, k));
    }
    for k in 1..4 {
        expected.push((4 - k, k));
    }
    assert_eq!(lit(&f, C), sorted(expected));
}

#[test]
fn span_fills_both_ends() {
    let mut f = blank();
    fill_line(&mut f, 2, 5, 3, C, W, H);
    assert_eq!(lit(&f, C), vec![(2, 3), (3, 3), (4, 3), (5, 3)]);
}

#[test]
fn empty_span_draws_nothing() {
    let mut f = blank();
    fill_line(&mut f, 5, 2, 3, C, W, H);
    assert!(f.iter().all(|b| *b == 0));
}

#[test]
fn span_off_screen_rows_and_columns() {
    let mut f = blank();
    fill_line(&mut f, -2, 1, 0, C, W, H);
    assert_eq!(lit(&f, C), vec![(0, 0), (1, 0)]);
    let mut g = blank();
    fill_line(&mut g, 0, 3, -1, C, W, H);
    fill_line(&mut g, 0, 3, H, C, W, H);
    assert!(g.iter().all(|b| *b == 0));
}

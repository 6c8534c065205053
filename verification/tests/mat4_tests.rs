use raster3d::mat4::Mat4x4;

#[test]
fn new_matrix_is_filled() {
    let m = Mat4x4::new(0i64);
    for r in 0..4 {
        for c in 0..4 {
            assert_eq!(m.get(r, c), 0);
        }
    }
}

#[test]
fn set_then_get() {
    let mut m = Mat4x4::new(0i64);
    m.set(2, 3, 42);
    m.set(0, 1, -5);
    assert_eq!(m.get(2, 3), 42);
    assert_eq!(m.get(0, 1), -5);
    assert_eq!(m.get(3, 2), 0);
    assert_eq!(m.get(1, 0), 0);
}

#[test]
fn cells_are_row_major() {
    let mut m = Mat4x4::new(0u32);
    m.set(1, 1, 7);
    assert_eq!(m.get(0, 5), 7);
}

#[test]
fn float_cells() {
    let mut m = Mat4x4::new(0.0f32);
    m.set(3, 3, 1.5);
    assert_eq!(m.get(3, 3), 1.5);
}

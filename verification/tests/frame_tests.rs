use raster3d::frame::{draw, get_color, reset_screen, set_pixel};

#[test]
fn set_pixel_writes_one_opaque_pixel() {
    let mut frame = vec![7u8; 3 * 2 * 4];
    set_pixel(&mut frame, 1, 1, 3, 10, 20, 30);
    let i = (1 * 3 + 1) * 4;
    for (k, b) in frame.iter().enumerate() {
        if k == i {
            assert_eq!(*b, 10);
        } else if k == i + 1 {
            assert_eq!(*b, 20);
        } else if k == i + 2 {
            assert_eq!(*b, 30);
        } else if k == i + 3 {
            assert_eq!(*b, 255);
        } else {
            assert_eq!(*b, 7);
        }
    }
}

#[test]
fn set_pixel_last_pixel_of_frame() {
    let mut frame = vec![0u8; 2 * 2 * 4];
    set_pixel(&mut frame, 1, 1, 2, 1, 2, 3);
    assert_eq!(&frame[12..16], &[1, 2, 3, 255]);
}

#[test]
fn reset_screen_blacks_out_whole_pixels_only() {
    let mut frame: Vec<u8> = (1..=10).collect();
    reset_screen(&mut frame);
    assert_eq!(frame, vec![0, 0, 0, 255, 0, 0, 0, 255, 9, 10]);
}

#[test]
fn reset_screen_empty_frame() {
    let mut frame: Vec<u8> = Vec::new();
    reset_screen(&mut frame);
    assert!(frame.is_empty());
}

#[test]
fn draw_inside_screen() {
    let mut frame = vec![0u8; 4 * 3 * 4];
    draw(&mut frame, 3, 2, (9, 8, 7), 4, 3);
    assert_eq!(&frame[44..48], &[9, 8, 7, 255]);
    assert!(frame[..44].iter().all(|b| *b == 0));
}

#[test]
fn draw_outside_screen_changes_nothing() {
    let mut frame = vec![5u8; 4 * 3 * 4];
    draw(&mut frame, 4, 0, (9, 8, 7), 4, 3);
    draw(&mut frame, 0, 3, (9, 8, 7), 4, 3);
    draw(&mut frame, 100, 100, (9, 8, 7), 4, 3);
    assert!(frame.iter().all(|b| *b == 5));
}

#[test]
fn draw_on_empty_screen_changes_nothing() {
    let mut frame: Vec<u8> = vec![1, 2, 3];
    draw(&mut frame, 0, 0, (9, 9, 9), 0, 0);
    assert_eq!(frame, vec![1, 2, 3]);
}

#[test]
fn get_color_has_no_effect() {
    get_color();
}

#[test]
fn drawing_order_and_repeats_do_not_matter() {
    let mut a = vec![0u8; 3 * 3 * 4];
    let mut b = vec![0u8; 3 * 3 * 4];
    draw(&mut a, 0, 0, (1, 2, 3), 3, 3);
    draw(&mut a, 2, 1, (1, 2, 3), 3, 3);
    draw(&mut b, 2, 1, (1, 2, 3), 3, 3);
    draw(&mut b, 0, 0, (1, 2, 3), 3, 3);
    draw(&mut b, 2, 1, (1, 2, 3), 3, 3);
    assert_eq!(a, b);
}

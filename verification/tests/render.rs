use raytracer::render::{assemble, band, render, render_band, Raster};

fn gray(v: f32) -> u8 {
    (v * 255.0).round().clamp(0.0, 255.0) as u8
}

#[test]
fn blank_scene_is_background() {
    let background = (0.5f32, 0.5f32, 0.5f32);
    let shade = |_x: u32, _y: u32| (gray(background.0), gray(background.1), gray(background.2));
    let img = render(2, 2, 1, &shade);
    assert_eq!(img.dimensions(), (2, 2));
    for y in 0..2 {
        for x in 0..2 {
            assert_eq!(img.get_pixel(x, y), Some((128, 128, 128)));
        }
    }
    assert_eq!(img.get_pixel(2, 0), None);
    assert_eq!(img.into_raw(), vec![128u8; 12]);
}

#[test]
fn bands_share_rows_and_last_takes_remainder() {
    let b0 = band(10, 3, 0);
    let b1 = band(10, 3, 1);
    let b2 = band(10, 3, 2);
    assert_eq!((b0.first_row, b0.rows), (0, 3));
    assert_eq!((b1.first_row, b1.rows), (3, 3));
    assert_eq!((b2.first_row, b2.rows), (6, 4));
}

#[test]
fn image_is_independent_of_thread_count() {
    let shade = |x: u32, y: u32| ((x * 7 + y) as u8, (y * 13) as u8, (x ^ y) as u8);
    let one = render(5, 7, 1, &shade).into_raw();
    for threads in 2..10 {
        let many = render(5, 7, threads, &shade).into_raw();
        assert_eq!(one, many);
    }
    assert_eq!(&one[0..3], &[0u8, 0, 0]);
    assert_eq!(&one[3 * (2 * 5 + 3)..3 * (2 * 5 + 3) + 3], &[23u8, 26, 1]);
}

#[test]
fn bands_are_stacked_in_order() {
    let shade = |x: u32, y: u32| (x as u8, y as u8, 9u8);
    let top = render_band(3, 5, 2, 0, &shade);
    let bottom = render_band(3, 5, 2, 1, &shade);
    assert_eq!(top.dimensions(), (3, 2));
    assert_eq!(bottom.dimensions(), (3, 3));
    assert_eq!(bottom.get_pixel(1, 0), Some((1, 2, 9)));
    let img = assemble(3, 5, &vec![top, bottom]);
    assert_eq!(img.get_pixel(2, 4), Some((2, 4, 9)));
    assert_eq!(img.get_pixel(0, 1), Some((0, 1, 9)));
    let black = Raster::new(1, 1);
    assert_eq!(black.get_pixel(0, 0), Some((0, 0, 0)));
}

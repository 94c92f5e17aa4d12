use kakera_core::{tint_cell, write_cell, RgbaImage};

fn canvas() -> RgbaImage {
    // 4x3, every pixel (9, 9, 9, 100)
    let mut data = Vec::new();
    for _ in 0..12 {
        data.extend_from_slice(&[9, 9, 9, 100]);
    }
    RgbaImage::new(4, 3, data).unwrap()
}

#[test]
fn write_cell_places_pixels_row_by_row_inside_the_cell() {
    let mut img = canvas();
    let px = vec![(1, 2, 3, 4), (5, 6, 7, 8), (10, 11, 12, 13), (14, 15, 16, 17)];
    write_cell(&mut img, 1, 1, 2, 2, &px);
    assert_eq!(img.pixel(1, 1), (1, 2, 3, 4));
    assert_eq!(img.pixel(2, 1), (5, 6, 7, 8));
    assert_eq!(img.pixel(1, 2), (10, 11, 12, 13));
    assert_eq!(img.pixel(2, 2), (14, 15, 16, 17));
    for (x, y) in [(0, 0), (3, 0), (0, 1), (3, 1), (0, 2), (3, 2), (1, 0), (2, 0)] {
        assert_eq!(img.pixel(x, y), (9, 9, 9, 100));
    }
}

#[test]
fn tint_cell_keeps_alpha_and_the_outside() {
    let mut img = canvas();
    img.put_pixel(0, 0, (1, 1, 1, 7));
    tint_cell(&mut img, 0, 0, 2, 1, &vec![(50, 60, 70), (80, 90, 100)]);
    assert_eq!(img.pixel(0, 0), (50, 60, 70, 7));
    assert_eq!(img.pixel(1, 0), (80, 90, 100, 100));
    assert_eq!(img.pixel(2, 0), (9, 9, 9, 100));
    assert_eq!(img.pixel(0, 1), (9, 9, 9, 100));
}

use kakera_core::{KakeraError, RgbaImage, RgbaView};

fn solid(w: u32, h: u32, rgba: [u8; 4]) -> RgbaImage {
    let data: Vec<u8> = std::iter::repeat(rgba).take((w * h) as usize).flatten().collect();
    RgbaImage::new(w, h, data).unwrap()
}

#[test]
fn new_rejects_wrong_length() {
    let err = RgbaImage::new(2, 2, vec![0u8; 10]).unwrap_err();
    match err {
        KakeraError::BufferSizeMismatch { expected, actual, .. } => {
            assert_eq!(expected, 16);
            assert_eq!(actual, 10);
        }
        other => panic!("unexpected: {other:?}"),
    }
}

#[test]
fn new_rejects_zero_dimension() {
    let err = RgbaImage::new(0, 4, vec![]).unwrap_err();
    assert!(matches!(err, KakeraError::ZeroDimension { .. }));
}

#[test]
fn into_bytes_round_trip() {
    let bytes: Vec<u8> = (0..16).collect();
    let img = RgbaImage::new(2, 2, bytes.clone()).unwrap();
    assert_eq!(img.into_bytes(), bytes);
}

#[test]
fn pixel_reads_correct_rgba() {
    // 2x2: pixel (1,1) is bytes 12..16
    let bytes: Vec<u8> = (0..16).collect();
    let img = RgbaImage::new(2, 2, bytes).unwrap();
    let v = img.view();
    assert_eq!(v.pixel(0, 0), (0, 1, 2, 3));
    assert_eq!(v.pixel(1, 1), (12, 13, 14, 15));
}

#[test]
fn zeroed_is_transparent() {
    let img = RgbaImage::zeroed(3, 2).unwrap();
    assert_eq!(img.as_bytes().len(), 3 * 2 * 4);
    assert!(img.as_bytes().iter().all(|&b| b == 0));
}

#[test]
fn new_rejects_dimensions_whose_len_exceeds_usize() {
    let err = RgbaImage::new(u32::MAX, u32::MAX, Vec::new()).unwrap_err();
    assert!(matches!(
        err,
        KakeraError::ImageTooLarge {
            width: 4_294_967_295,
            height: 4_294_967_295,
            ..
        }
    ));
}

#[test]
fn zeroed_rejects_zero_dimension() {
    let err = RgbaImage::zeroed(5, 0).unwrap_err();
    assert_eq!(err, KakeraError::ZeroDimension { width: 5, height: 0 });
}

#[test]
fn view_new_checks_length_and_reads_pixels() {
    let bytes: Vec<u8> = (0..24).collect();
    let err = RgbaView::new(3, 2, &bytes[..20]).unwrap_err();
    assert_eq!(
        err,
        KakeraError::BufferSizeMismatch { width: 3, height: 2, expected: 24, actual: 20 }
    );
    let v = RgbaView::new(3, 2, &bytes).unwrap();
    assert_eq!((v.width(), v.height()), (3, 2));
    // (2, 1) is pixel 5: bytes 20..24
    assert_eq!(v.pixel(2, 1), (20, 21, 22, 23));
    assert_eq!(v.pixel(1, 0), (4, 5, 6, 7));
}

#[test]
fn view_new_rejects_zero_dimension() {
    let err = RgbaView::new(0, 0, &[]).unwrap_err();
    assert_eq!(err, KakeraError::ZeroDimension { width: 0, height: 0 });
}

#[test]
fn put_pixel_changes_only_that_pixel() {
    let mut img = solid(3, 2, [1, 2, 3, 4]);
    img.put_pixel(1, 1, (9, 8, 7, 6));
    assert_eq!(img.pixel(1, 1), (9, 8, 7, 6));
    for (x, y) in [(0, 0), (1, 0), (2, 0), (0, 1), (2, 1)] {
        assert_eq!(img.pixel(x, y), (1, 2, 3, 4));
    }
    assert_eq!(img.as_bytes().len(), 24);
}

#[test]
fn clone_keeps_size_and_bytes() {
    let img = solid(2, 3, [5, 6, 7, 8]);
    let c = img.clone();
    assert_eq!((c.width(), c.height()), (2, 3));
    assert_eq!(c.as_bytes(), img.as_bytes());
}

#[test]
fn view_matches_image() {
    let bytes: Vec<u8> = (0..32).collect();
    let img = RgbaImage::new(4, 2, bytes).unwrap();
    let v = img.view();
    assert_eq!((v.width(), v.height()), (4, 2));
    assert_eq!(v.pixel(3, 1), img.pixel(3, 1));
    assert_eq!(v.pixel(3, 1), (28, 29, 30, 31));
}

#[test]
fn render_payload_frames_dimensions_then_pixels() {
    let bytes: Vec<u8> = (0..24).collect();
    let img = RgbaImage::new(3, 2, bytes.clone()).unwrap();
    let payload = kakera_core::render_payload(img);
    assert_eq!(payload.len(), 8 + 24);
    assert_eq!(&payload[0..4], &3u32.to_le_bytes());
    assert_eq!(&payload[4..8], &2u32.to_le_bytes());
    assert_eq!(&payload[8..], &bytes[..]);
}

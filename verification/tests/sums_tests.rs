use kakera_core::{
    bucket_sums, fill_cell, nearest_source, source_span, window_sums, AlphaPolicy, ChannelSums,
    RgbaImage,
};

fn solid(w: u32, h: u32, rgba: [u8; 4]) -> RgbaImage {
    let data: Vec<u8> = std::iter::repeat(rgba).take((w * h) as usize).flatten().collect();
    RgbaImage::new(w, h, data).unwrap()
}

/// Average colour of a bucket, as the front end computes it (zero when empty).
fn avg(s: &ChannelSums) -> [f32; 3] {
    if s.weight == 0 {
        [0.0, 0.0, 0.0]
    } else {
        let w = s.weight as f64;
        [(s.r as f64 / w) as f32, (s.g as f64 / w) as f32, (s.b as f64 / w) as f32]
    }
}

#[test]
fn solid_region_all_cells_same() {
    let img = solid(8, 8, [255, 0, 0, 255]);
    let cells = bucket_sums(&img.view(), 0, 0, 8, 8, 3, 3, AlphaPolicy::Ignore);
    assert_eq!(cells.len(), 9);
    for c in cells {
        assert_eq!(avg(&c), [255.0, 0.0, 0.0]);
    }
}

#[test]
fn left_white_right_black_split_at_1x2() {
    // 2x1 image: left white, right black -> 1x2 grid keeps them separate.
    let data = vec![
        255, 255, 255, 255, // (0,0) white
        0, 0, 0, 255, // (1,0) black
    ];
    let img = RgbaImage::new(2, 1, data).unwrap();
    let cells = bucket_sums(&img.view(), 0, 0, 2, 1, 2, 1, AlphaPolicy::Ignore);
    assert_eq!(avg(&cells[0]), [255.0, 255.0, 255.0]);
    assert_eq!(avg(&cells[1]), [0.0, 0.0, 0.0]);
}

#[test]
fn two_by_two_to_single_cell_is_mean() {
    let data = vec![
        0, 0, 0, 255, // 0
        100, 100, 100, 255, // 100
        100, 100, 100, 255, // 100
        200, 200, 200, 255, // 200
    ];
    let img = RgbaImage::new(2, 2, data).unwrap();
    let cells = bucket_sums(&img.view(), 0, 0, 2, 2, 1, 1, AlphaPolicy::Ignore);
    assert_eq!(avg(&cells[0]), [100.0, 100.0, 100.0]);
}

#[test]
fn weighted_alpha_skips_transparent() {
    // Opaque red + fully transparent green -> weighted avg is pure red.
    let data = vec![
        255, 0, 0, 255, // opaque red
        0, 255, 0, 0, // transparent green
    ];
    let img = RgbaImage::new(2, 1, data).unwrap();
    let cells = bucket_sums(&img.view(), 0, 0, 2, 1, 1, 1, AlphaPolicy::Weighted);
    assert_eq!(avg(&cells[0]), [255.0, 0.0, 0.0]);
}

#[test]
fn weighted_fully_transparent_is_zero() {
    let img = solid(4, 4, [123, 200, 50, 0]);
    let cells = bucket_sums(&img.view(), 0, 0, 4, 4, 1, 1, AlphaPolicy::Weighted);
    assert_eq!(avg(&cells[0]), [0.0, 0.0, 0.0]);
    assert_eq!(cells[0].weight, 0);
    assert_eq!(cells[0].count, 16);
}

#[test]
fn bucket_sums_exact_values() {
    // 3x1 region, 2 buckets: lx * 2 / 3 sends pixels 0, 1 to bucket 0 and pixel 2 to bucket 1
    let data = vec![10, 20, 30, 100, 1, 2, 3, 50, 5, 6, 7, 150];
    let img = RgbaImage::new(3, 1, data).unwrap();
    let c = bucket_sums(&img.view(), 0, 0, 3, 1, 2, 1, AlphaPolicy::Weighted);
    assert_eq!(
        c[0],
        ChannelSums { r: 1000 + 50, g: 2000 + 100, b: 3000 + 150, a: 150, weight: 150, count: 2 }
    );
    assert_eq!(c[1], ChannelSums { r: 750, g: 900, b: 1050, a: 150, weight: 150, count: 1 });
    let c = bucket_sums(&img.view(), 1, 0, 2, 1, 1, 1, AlphaPolicy::Ignore);
    assert_eq!(c[0], ChannelSums { r: 6, g: 8, b: 10, a: 200, weight: 2, count: 2 });
}

#[test]
fn bucket_sums_more_buckets_than_pixels_leaves_empty_ones() {
    let img = solid(2, 1, [9, 9, 9, 255]);
    let c = bucket_sums(&img.view(), 0, 0, 2, 1, 4, 1, AlphaPolicy::Ignore);
    assert_eq!(c.len(), 4);
    // lx * 4 / 2: pixel 0 -> 0, pixel 1 -> 2
    assert_eq!((c[0].count, c[1].count, c[2].count, c[3].count), (1, 0, 1, 0));
}

#[test]
fn window_sums_of_rectangle() {
    let data: Vec<u8> = (0..36).collect(); // 3x3
    let img = RgbaImage::new(3, 3, data).unwrap();
    // pixels (1,1) and (2,1): bytes 16..20 and 20..24
    let s = window_sums(&img.view(), 1, 3, 1, 2, AlphaPolicy::Ignore);
    assert_eq!(s, ChannelSums { r: 16 + 20, g: 17 + 21, b: 18 + 22, a: 19 + 23, weight: 2, count: 2 });
    let e = window_sums(&img.view(), 2, 2, 0, 3, AlphaPolicy::Ignore);
    assert_eq!(e.count, 0);
}

#[test]
fn source_span_downscale_and_upscale() {
    // 8 source pixels into 2: each output pixel averages 4
    assert_eq!(source_span(0, 2, 8), (0, 4));
    assert_eq!(source_span(1, 2, 8), (4, 8));
    // 2 source pixels into 8: nearest-neighbour replication, never empty
    assert_eq!(source_span(0, 8, 2), (0, 1));
    assert_eq!(source_span(3, 8, 2), (0, 1));
    assert_eq!(source_span(4, 8, 2), (1, 2));
    assert_eq!(source_span(7, 8, 2), (1, 2));
}

#[test]
fn nearest_source_stays_in_span() {
    assert_eq!(nearest_source(0, 4, 10, 2), 10);
    assert_eq!(nearest_source(3, 4, 10, 2), 11);
    assert_eq!(nearest_source(5, 6, 0, 3), 2);
}

#[test]
fn fill_cell_paints_only_the_cell() {
    let mut img = solid(4, 3, [1, 1, 1, 1]);
    fill_cell(&mut img, 1, 1, 2, 2, (200, 100, 50));
    for y in 0..3 {
        for x in 0..4 {
            let inside = (1..3).contains(&x) && (1..3).contains(&y);
            let want = if inside { (200, 100, 50, 255) } else { (1, 1, 1, 1) };
            assert_eq!(img.pixel(x, y), want, "pixel ({x}, {y})");
        }
    }
}

#[test]
fn spans_cover_source_and_abut_on_downscale() {
    for n_out in 1..12u32 {
        for n_src in 1..12u32 {
            for s in 0..n_src {
                assert!(
                    (0..n_out).any(|i| {
                        let (a, b) = source_span(i, n_out, n_src);
                        a <= s && s < b
                    }),
                    "source pixel {s} of {n_src} uncovered by {n_out} outputs"
                );
            }
            if n_out <= n_src {
                for i in 0..n_out - 1 {
                    assert_eq!(source_span(i, n_out, n_src).1, source_span(i + 1, n_out, n_src).0);
                }
            }
        }
    }
}

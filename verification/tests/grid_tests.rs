use kakera_core::grid::{color_adjust_active, color_adjust_valid, output_fits};
use kakera_core::{cell_coords, cell_region, validate, KakeraError, MosaicGrid, MosaicParams};

#[test]
fn grid_compute_ceil_and_out_size() {
    let p = MosaicParams { cell_width: 16, cell_height: 16, grid: 1, ..MosaicParams::default() };
    let g = MosaicGrid::compute(100, 100, &p).unwrap();
    assert_eq!((g.cols, g.rows), (7, 7));
    assert_eq!((g.out_width, g.out_height), (112, 112));
}

#[test]
fn grid_compute_rejects_bad_params() {
    let zero_grid = MosaicParams { grid: 0, ..MosaicParams::default() };
    assert!(matches!(
        MosaicGrid::compute(100, 100, &zero_grid).unwrap_err(),
        KakeraError::InvalidGrid { grid: 0 }
    ));

    let zero_cell = MosaicParams { cell_width: 0, ..MosaicParams::default() };
    assert!(matches!(
        MosaicGrid::compute(100, 100, &zero_cell).unwrap_err(),
        KakeraError::InvalidCellSize { .. }
    ));

    let p = MosaicParams::default();
    assert!(matches!(
        MosaicGrid::compute(8, 8, &p).unwrap_err(),
        KakeraError::TargetTooSmall { .. }
    ));
}

#[test]
fn output_scale_grid_dims() {
    let p = MosaicParams {
        cell_width: 16,
        cell_height: 16,
        grid: 1,
        output_scale: 3,
        ..MosaicParams::default()
    };
    let g = MosaicGrid::compute(100, 100, &p).unwrap();
    assert_eq!((g.cols, g.rows), (7, 7)); // sampling granularity unchanged
    assert_eq!((g.out_width, g.out_height), (7 * 16 * 3, 7 * 16 * 3));
}

fn small_params() -> MosaicParams {
    MosaicParams { cell_width: 2, cell_height: 2, grid: 1, ..MosaicParams::default() }
}

/// `build` and `preview` run `validate` before any pixel work; this is the
/// empty-index refusal they return.
#[test]
fn build_empty_index_errors() {
    // 4x4 target, empty index of grid 1
    assert!(matches!(
        validate(4, 4, 0, 1, &small_params()).unwrap_err(),
        KakeraError::EmptyIndex
    ));
}

/// The grid-mismatch refusal of the request checks that `build` and
/// `preview` run first.
#[test]
fn build_grid_mismatch_errors() {
    let p = MosaicParams { grid: 3, ..small_params() };
    assert!(matches!(
        validate(4, 4, 4, 1, &p).unwrap_err(),
        KakeraError::GridMismatch { params: 3, index: 1 }
    ));
}

/// Tint strengths outside `0..=1` (and NaN) are refused by the request
/// checks that `build` and `preview` run first.
#[test]
fn color_adjust_out_of_range_errors() {
    for bad in [1.5f32, -0.1, f32::NAN] {
        let p = MosaicParams { color_adjust_bits: bad.to_bits(), ..small_params() };
        assert!(matches!(
            validate(4, 4, 1, 1, &p).unwrap_err(),
            KakeraError::InvalidColorAdjust { .. }
        ));
    }
}

/// A zero output scale is refused by the request checks that `build` and
/// `preview` run first.
#[test]
fn output_scale_zero_errors() {
    let p = MosaicParams { output_scale: 0, ..small_params() };
    assert!(matches!(
        validate(4, 4, 1, 1, &p).unwrap_err(),
        KakeraError::InvalidOutputScale { scale: 0 }
    ));
}

#[test]
fn default_params_are_documented_values() {
    let p = MosaicParams::default();
    assert_eq!((p.cell_width, p.cell_height, p.grid, p.output_scale), (16, 16, 3, 1));
    assert_eq!(p.max_tile_usage, None);
    assert!(!p.ensure_all_tiles && !p.avoid_adjacent_duplicates);
    assert_eq!(f32::from_bits(p.color_adjust_bits), 0.0);
}

#[test]
fn color_adjust_encodings() {
    for ok in [0.0f32, -0.0, 0.25, 0.5, 1.0, f32::MIN_POSITIVE] {
        assert!(color_adjust_valid(ok.to_bits()), "{ok}");
    }
    for bad in [1.000_001f32, 2.0, -0.5, f32::INFINITY, f32::NEG_INFINITY, f32::NAN] {
        assert!(!color_adjust_valid(bad.to_bits()), "{bad}");
    }
    assert!(!color_adjust_active(0.0f32.to_bits()));
    assert!(!color_adjust_active((-0.0f32).to_bits()));
    assert!(color_adjust_active(0.5f32.to_bits()));
    assert!(color_adjust_active(1.0f32.to_bits()));
}

#[test]
fn validate_accepts_and_lays_out() {
    let g = validate(5, 3, 2, 1, &small_params()).unwrap();
    assert_eq!((g.cols, g.rows), (3, 2));
    assert_eq!((g.out_width, g.out_height), (6, 4));
    assert_eq!((g.out_cell_width(), g.out_cell_height()), (2, 2));
}

#[test]
fn output_fits_detects_overflow() {
    let p = MosaicParams { cell_width: 2, cell_height: 2, grid: 1, output_scale: 3, ..MosaicParams::default() };
    assert!(output_fits(100, 100, &p));
    assert!(!output_fits(u32::MAX, 10, &p));
    let huge = MosaicParams { output_scale: u32::MAX, ..p };
    assert!(!output_fits(4, 4, &huge));
    // refused requests always "fit"
    let zero = MosaicParams { output_scale: 0, ..p };
    assert!(output_fits(u32::MAX, u32::MAX, &zero));
}

#[test]
fn cell_regions_clip_and_cover_target() {
    let p = MosaicParams { cell_width: 4, cell_height: 3, grid: 1, ..MosaicParams::default() };
    let g = MosaicGrid::compute(10, 7, &p).unwrap();
    assert_eq!((g.cols, g.rows), (3, 3));
    assert_eq!(cell_region(&g, 10, 7, 0, 0), (0, 0, 4, 3));
    assert_eq!(cell_region(&g, 10, 7, 2, 2), (8, 6, 2, 1));
    // every target pixel lies in exactly one region
    for y in 0..7u32 {
        for x in 0..10u32 {
            let mut hits = 0;
            for row in 0..g.rows {
                for col in 0..g.cols {
                    let (rx, ry, rw, rh) = cell_region(&g, 10, 7, col, row);
                    if rx <= x && x < rx + rw && ry <= y && y < ry + rh {
                        hits += 1;
                        assert_eq!((col, row), (x / 4, y / 3));
                    }
                }
            }
            assert_eq!(hits, 1);
        }
    }
}

#[test]
fn cell_coords_row_major() {
    let p = MosaicParams { cell_width: 2, cell_height: 2, grid: 1, ..MosaicParams::default() };
    let g = MosaicGrid::compute(6, 4, &p).unwrap();
    assert_eq!(cell_coords(&g), vec![(0, 0), (1, 0), (2, 0), (0, 1), (1, 1), (2, 1)]);
}

#[test]
fn compute_reports_first_failing_check() {
    // grid is checked before cell size, cell size before target size, target before scale
    let p = MosaicParams { grid: 0, cell_width: 0, output_scale: 0, ..MosaicParams::default() };
    assert_eq!(MosaicGrid::compute(1, 1, &p).unwrap_err(), KakeraError::InvalidGrid { grid: 0 });
    let p = MosaicParams { cell_width: 0, output_scale: 0, ..MosaicParams::default() };
    assert_eq!(
        MosaicGrid::compute(1, 1, &p).unwrap_err(),
        KakeraError::InvalidCellSize { cell_width: 0, cell_height: 16 }
    );
    let p = MosaicParams { output_scale: 0, ..MosaicParams::default() };
    assert_eq!(
        MosaicGrid::compute(8, 20, &p).unwrap_err(),
        KakeraError::TargetTooSmall { width: 8, height: 20, cell_width: 16, cell_height: 16 }
    );
    assert_eq!(
        MosaicGrid::compute(20, 20, &p).unwrap_err(),
        KakeraError::InvalidOutputScale { scale: 0 }
    );
}

#[test]
fn validate_refuses_before_layout_even_when_output_would_overflow() {
    // An output of 2^32 pixels per side would overflow, but the index checks come first.
    let p = MosaicParams { cell_width: 1, cell_height: 1, grid: 1, output_scale: 65536, ..MosaicParams::default() };
    assert!(matches!(validate(65536, 65536, 0, 1, &p).unwrap_err(), KakeraError::EmptyIndex));
    assert!(matches!(
        validate(65536, 65536, 3, 2, &p).unwrap_err(),
        KakeraError::GridMismatch { params: 1, index: 2 }
    ));
}

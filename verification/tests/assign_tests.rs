use std::collections::BTreeSet;

use kakera_core::{
    assign_picks, nearest, nearest_with_dist, position_of, KakeraError, MosaicParams, TileId,
    DISTANCE_SCALE,
};

/// Squared RGB distance of two single-cell features, as the front end computes it.
fn distance_sq(a: [f32; 3], b: [f32; 3]) -> f32 {
    let dr = a[0] - b[0];
    let dg = a[1] - b[1];
    let db = a[2] - b[2];
    dr * dr + dg * dg + db * db
}

/// Fixed-point key of a distance, as the front end hands it to the engine.
fn key(d: f32) -> u128 {
    (d as f64 * DISTANCE_SCALE as f64).round() as u128
}

/// The red, green, blue, white tiles, ids 0..=3.
fn four_colors() -> (Vec<TileId>, Vec<[f32; 3]>) {
    (
        vec![0, 1, 2, 3],
        vec![[255.0, 0.0, 0.0], [0.0, 255.0, 0.0], [0.0, 0.0, 255.0], [255.0, 255.0, 255.0]],
    )
}

fn matrix(feats: &[[f32; 3]], tiles: &[[f32; 3]]) -> Vec<Vec<u128>> {
    feats.iter().map(|f| tiles.iter().map(|t| key(distance_sq(*f, *t))).collect()).collect()
}

fn params_with(ensure_all: bool, max: Option<u32>, adjacent: bool) -> MosaicParams {
    MosaicParams {
        cell_width: 2,
        cell_height: 2,
        grid: 1,
        ensure_all_tiles: ensure_all,
        max_tile_usage: max,
        avoid_adjacent_duplicates: adjacent,
        ..MosaicParams::default()
    }
}

fn count(picks: &[TileId], id: TileId) -> usize {
    picks.iter().filter(|&&p| p == id).count()
}

fn assign(n: usize, cols: u32, params: &MosaicParams) -> Result<Vec<TileId>, KakeraError> {
    let (ids, tiles) = four_colors();
    let feats = vec![[250.0, 5.0, 5.0]; n];
    assign_picks(&ids, &matrix(&feats, &tiles), cols, params)
}

#[test]
fn assign_picks_greedy_leaves_tiles_unused() {
    let picks = assign(8, 8, &params_with(false, None, false)).unwrap(); // all closest to red (id 0)
    assert!(picks.iter().all(|&id| id == 0));
}

#[test]
fn assign_picks_coverage_uses_every_tile() {
    let picks = assign(8, 8, &params_with(true, None, false)).unwrap();
    assert_eq!(picks.len(), 8);
    let used: BTreeSet<_> = picks.iter().copied().collect();
    assert_eq!(used, [0, 1, 2, 3].into_iter().collect());
    // The dominant (best-matching) tile keeps the majority of cells.
    assert_eq!(count(&picks, 0), 5);
}

#[test]
fn coverage_noop_when_more_tiles_than_cells() {
    let picks = assign(2, 2, &params_with(true, None, false)).unwrap(); // 2 cells, 4 tiles
    assert_eq!(picks, vec![0, 0]); // pigeonhole-infeasible -> greedy stands
}

#[test]
fn max_usage_caps_occurrences() {
    let picks = assign(8, 8, &params_with(false, Some(2), false)).unwrap(); // greedily all red
    assert_eq!(picks.len(), 8);
    for id in 0..4 {
        assert!(count(&picks, id) <= 2, "tile {id} exceeds cap");
    }
    // 8 cells / cap 2 forces all four tiles into use.
    let used: BTreeSet<_> = picks.iter().copied().collect();
    assert_eq!(used, [0, 1, 2, 3].into_iter().collect());
}

#[test]
fn max_usage_zero_errors() {
    let (ids, tiles) = four_colors();
    let feats = vec![[1.0, 1.0, 1.0]; 4];
    let err = assign_picks(&ids, &matrix(&feats, &tiles), 4, &params_with(false, Some(0), false))
        .unwrap_err();
    assert!(matches!(err, KakeraError::InvalidMaxTileUsage { max: 0 }));
}

#[test]
fn max_usage_too_small_errors() {
    let (ids, tiles) = four_colors();
    let feats = vec![[1.0, 1.0, 1.0]; 9]; // 4 tiles * cap 2 = 8 < 9
    let err = assign_picks(&ids, &matrix(&feats, &tiles), 3, &params_with(false, Some(2), false))
        .unwrap_err();
    assert!(matches!(
        err,
        KakeraError::MaxTileUsageTooSmall { max: 2, tiles: 4, cells: 9 }
    ));
}

#[test]
fn avoid_adjacent_breaks_neighbor_duplicates() {
    // 2x2 grid (cols=2), all cells greedily red -> adjacency must split.
    let picks = assign(4, 2, &params_with(false, None, true)).unwrap();
    let cols = 2usize;
    for c in 0..picks.len() {
        if c % cols > 0 {
            assert_ne!(picks[c], picks[c - 1], "horizontal dup at {c}");
        }
        if c / cols > 0 {
            assert_ne!(picks[c], picks[c - cols], "vertical dup at {c}");
        }
    }
}

#[test]
fn all_constraints_together() {
    // 16 cells (cols=4), greedily all red; coverage + cap + adjacency.
    let picks = assign(16, 4, &params_with(true, Some(6), true)).unwrap();
    assert_eq!(picks.len(), 16);
    let used: BTreeSet<_> = picks.iter().copied().collect();
    assert_eq!(used, [0, 1, 2, 3].into_iter().collect()); // coverage
    for id in 0..4 {
        assert!(count(&picks, id) <= 6, "tile {id} exceeds cap"); // hard cap
    }
}

fn feat_row(query: [f32; 3], tiles: &[[f32; 3]]) -> Vec<u128> {
    tiles.iter().map(|t| key(distance_sq(query, *t))).collect()
}

#[test]
fn nearest_picks_closest_color() {
    let ids = vec![10, 20, 30];
    let tiles = [[255.0, 0.0, 0.0], [0.0, 255.0, 0.0], [0.0, 0.0, 255.0]];
    assert_eq!(nearest(&ids, &feat_row([250.0, 5.0, 5.0], &tiles)).unwrap(), 10);
    assert_eq!(nearest(&ids, &feat_row([5.0, 250.0, 5.0], &tiles)).unwrap(), 20);
    assert_eq!(nearest(&ids, &feat_row([5.0, 5.0, 250.0], &tiles)).unwrap(), 30);
}

#[test]
fn nearest_prefers_strictly_closer() {
    let ids = vec![1, 2];
    let tiles = [[255.0, 0.0, 0.0], [240.0, 10.0, 10.0]];
    // Query nearer to id 2 than id 1.
    assert_eq!(nearest(&ids, &feat_row([238.0, 12.0, 9.0], &tiles)).unwrap(), 2);
}

#[test]
fn nearest_empty_index_errors() {
    let err = nearest(&Vec::new(), &Vec::new()).unwrap_err();
    assert!(matches!(err, KakeraError::EmptyIndex));
}

#[test]
fn nearest_ties_keep_earlier_tile() {
    assert_eq!(nearest_with_dist(&vec![7, 8, 9], &vec![5, 3, 3]).unwrap(), (8, 3));
    assert_eq!(nearest_with_dist(&vec![4, 2], &vec![1, 1]).unwrap(), (4, 1));
}

#[test]
fn distance_keys_are_scaled_and_rounded() {
    assert_eq!(key(25.0), 25 * DISTANCE_SCALE);
    assert_eq!(key(0.5), DISTANCE_SCALE / 2);
    assert_eq!(key(distance_sq([0.0, 0.0, 0.0], [3.0, 4.0, 0.0])), 25 << 32);
    // distinct single-precision distances keep distinct keys
    assert!(key(125025.0) < key(125025.01));
}

#[test]
fn assign_empty_index_errors() {
    let err = assign_picks(&Vec::new(), &vec![Vec::new(); 3], 3, &MosaicParams::default()).unwrap_err();
    assert_eq!(err, KakeraError::EmptyIndex);
    // with nothing to fill, an empty index is fine
    assert_eq!(assign_picks(&Vec::new(), &Vec::new(), 3, &MosaicParams::default()).unwrap(), vec![]);
}

#[test]
fn cap_is_checked_before_empty_index() {
    let p = params_with(false, Some(3), false);
    let err = assign_picks(&Vec::new(), &vec![Vec::new(); 2], 2, &p).unwrap_err();
    assert_eq!(err, KakeraError::MaxTileUsageTooSmall { max: 3, tiles: 0, cells: 2 });
}

#[test]
fn cap_keeps_best_fitting_cells() {
    // one row of 4 cells; tile 0 is nearest for all, cells 1 and 3 fit it best
    let ids = vec![0, 1];
    let dist = vec![vec![30, 100], vec![10, 100], vec![20, 100], vec![5, 100]];
    let picks = assign_picks(&ids, &dist, 4, &params_with(false, Some(2), false)).unwrap();
    assert_eq!(picks, vec![1, 0, 1, 0]);
}

#[test]
fn coverage_takes_least_regret_cell() {
    // tile 2 is unused; switching cell 2 to it costs least (regret 1)
    let ids = vec![0, 1, 2];
    let dist = vec![vec![0, 9, 50], vec![1, 0, 60], vec![2, 9, 3], vec![0, 9, 40]];
    let picks = assign_picks(&ids, &dist, 4, &params_with(true, None, false)).unwrap();
    assert_eq!(picks, vec![0, 1, 2, 0]);
}

#[test]
fn coverage_never_orphans_a_used_tile() {
    // tile 1 holds one cell and must keep it; tile 2 displaces a tile-0 cell
    let ids = vec![0, 1, 2];
    let dist = vec![vec![5, 0, 6], vec![0, 9, 1], vec![0, 9, 7]];
    let picks = assign_picks(&ids, &dist, 3, &params_with(true, None, false)).unwrap();
    assert_eq!(picks, vec![1, 2, 0]);
}

#[test]
fn adjacency_respects_cap() {
    // 2x2, cap 2: adjacency may only move cells onto tiles with room
    let picks = assign(4, 2, &params_with(false, Some(2), true)).unwrap();
    for id in 0..4 {
        assert!(count(&picks, id) <= 2);
    }
}

#[test]
fn position_of_finds_first() {
    assert_eq!(position_of(&vec![4, 9, 4], 4), Some(0));
    assert_eq!(position_of(&vec![4, 9, 4], 9), Some(1));
    assert_eq!(position_of(&vec![4, 9, 4], 5), None);
}

#[test]
fn cap_leaves_tiles_within_cap_alone() {
    // tile 0 holds three cells under a cap of 2; its worst-fitting cell (2)
    // moves to the nearest tile with room; tile 1's cell stays where it is
    let ids = vec![0, 1, 2];
    let dist = vec![vec![1, 50, 60], vec![2, 50, 60], vec![3, 50, 40], vec![9, 0, 90]];
    let picks = assign_picks(&ids, &dist, 4, &params_with(false, Some(2), false)).unwrap();
    assert_eq!(picks, vec![0, 0, 2, 1]);
}

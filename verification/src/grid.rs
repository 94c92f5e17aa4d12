use vstd::prelude::*;

use crate::color::AlphaPolicy;
use crate::error::KakeraError;

verus! {

/// IEEE-754 binary32 encoding of `1.0`.
pub const ONE_BITS: u32 = 0x3f80_0000u32;

/// IEEE-754 binary32 encoding of `-0.0`.
pub const NEG_ZERO_BITS: u32 = 0x8000_0000u32;

/// A binary32 encoding denotes a finite value in `0.0..=1.0`: the encodings
/// `0x0000_0000..=0x3f80_0000` are exactly `+0.0` up to `1.0` in increasing
/// order, and `-0.0` compares equal to `0.0`.
pub open spec fn spec_color_adjust_valid(bits: u32) -> bool {
    bits <= ONE_BITS || bits == NEG_ZERO_BITS
}

/// A binary32 encoding denotes a value strictly greater than `0.0`: sign bit
/// clear, not zero, not NaN (`0x7f80_0000` is `+inf`).
pub open spec fn spec_color_adjust_active(bits: u32) -> bool {
    0 < bits <= 0x7f80_0000u32
}

/// Whether `bits` encodes a finite strength in `0.0..=1.0`.
pub fn color_adjust_valid(bits: u32) -> (r: bool)
    ensures
        r == spec_color_adjust_valid(bits),
{
    bits <= ONE_BITS || bits == NEG_ZERO_BITS
}

/// Whether `bits` encodes a strength greater than `0.0` (tinting is on).
pub fn color_adjust_active(bits: u32) -> (r: bool)
    ensures
        r == spec_color_adjust_active(bits),
{
    0 < bits && bits <= 0x7f80_0000u32
}

/// Tunables for building a mosaic.
#[derive(Clone, Copy, Debug, PartialEq, Eq)]
pub struct MosaicParams {
    pub cell_width: u32,
    pub cell_height: u32,
    /// N for the N x N sub-grid feature. Must equal the index's grid.
    pub grid: u32,
    pub alpha: AlphaPolicy,
    /// Guarantee every indexed tile is placed at least once: after the
    /// greedy nearest-match pass, each unused tile displaces the
    /// least-regret over-used cell. No-op when the grid has fewer cells
    /// than tiles (pigeonhole-infeasible).
    pub ensure_all_tiles: bool,
    /// Hard cap on how many times any single tile may be placed.
    /// `Some(0)` or a cap too small to fill the grid is an error.
    pub max_tile_usage: Option<u32>,
    /// Best-effort: avoid the same tile in horizontally/vertically
    /// adjacent cells.
    pub avoid_adjacent_duplicates: bool,
    /// Per-pixel multiply of the placed tile by the target colour, as the
    /// IEEE-754 binary32 encoding of the strength. `0.0` = off; `1.0` = full
    /// multiply; values in between blend the multiplier toward white. Must
    /// encode a finite value in `0.0..=1.0`.
    pub color_adjust_bits: u32,
    /// Integer upscale of the rendered output; tile selection still uses
    /// `cell_width x cell_height` over the target. Must be >= 1.
    pub output_scale: u32,
}

impl Default for MosaicParams {
    fn default() -> (r: MosaicParams)
        ensures
            r.cell_width == 16,
            r.cell_height == 16,
            r.grid == 3,
            r.alpha == AlphaPolicy::Ignore,
            !r.ensure_all_tiles,
            r.max_tile_usage is None,
            !r.avoid_adjacent_duplicates,
            r.color_adjust_bits == 0,
            r.output_scale == 1,
    {
        MosaicParams {
            cell_width: 16,
            cell_height: 16,
            grid: 3,
            alpha: AlphaPolicy::Ignore,
            ensure_all_tiles: false,
            max_tile_usage: None,
            avoid_adjacent_duplicates: false,
            color_adjust_bits: 0,
            output_scale: 1,
        }
    }
}

/// Cell layout of a mosaic over a target image.
#[derive(Clone, Copy, Debug, PartialEq, Eq)]
pub struct MosaicGrid {
    pub cols: u32,
    pub rows: u32,
    /// Target-sampling cell size (drives tile selection / matching).
    pub cell_width: u32,
    pub cell_height: u32,
    /// Output upscale factor (>= 1).
    pub scale: u32,
    pub out_width: u32,
    pub out_height: u32,
}

/// `ceil(a / b)` for `b > 0`.
pub open spec fn ceil_div(a: int, b: int) -> int {
    (a + b - 1) / b
}

/// Which check, if any, refuses a grid for a `target_w x target_h` target.
pub open spec fn spec_grid_error(target_w: u32, target_h: u32, params: MosaicParams) -> Option<
    KakeraError,
> {
    if params.grid < 1 {
        Some(KakeraError::InvalidGrid { grid: params.grid })
    } else if params.cell_width < 1 || params.cell_height < 1 {
        Some(
            KakeraError::InvalidCellSize {
                cell_width: params.cell_width,
                cell_height: params.cell_height,
            },
        )
    } else if target_w < params.cell_width || target_h < params.cell_height {
        Some(
            KakeraError::TargetTooSmall {
                width: target_w,
                height: target_h,
                cell_width: params.cell_width,
                cell_height: params.cell_height,
            },
        )
    } else if params.output_scale < 1 {
        Some(KakeraError::InvalidOutputScale { scale: params.output_scale })
    } else {
        None
    }
}

/// The rendered output sides fit in `u32` (they are `cols * cell * scale`).
pub open spec fn spec_output_fits(target_w: u32, target_h: u32, params: MosaicParams) -> bool {
    spec_grid_error(target_w, target_h, params) is None ==> {
        &&& ceil_div(target_w as int, params.cell_width as int) * params.cell_width
            * params.output_scale <= u32::MAX
        &&& ceil_div(target_h as int, params.cell_height as int) * params.cell_height
            * params.output_scale <= u32::MAX
    }
}

/// The grid a valid request produces.
pub open spec fn spec_grid(target_w: u32, target_h: u32, params: MosaicParams) -> MosaicGrid {
    let cols = ceil_div(target_w as int, params.cell_width as int);
    let rows = ceil_div(target_h as int, params.cell_height as int);
    MosaicGrid {
        cols: cols as u32,
        rows: rows as u32,
        cell_width: params.cell_width,
        cell_height: params.cell_height,
        scale: params.output_scale,
        out_width: (cols * params.cell_width * params.output_scale) as u32,
        out_height: (rows * params.cell_height * params.output_scale) as u32,
    }
}

/// `ceil(a / b)` is at least 1 and at most `a`, and `ceil(a / b) * b` covers `a`
/// with less than one `b` to spare.
pub proof fn lemma_ceil_div(a: int, b: int)
    requires
        1 <= b <= a,
    ensures
        1 <= ceil_div(a, b) <= a,
        a <= ceil_div(a, b) * b < a + b,
        (ceil_div(a, b) - 1) * b < a,
{
    let q = ceil_div(a, b);
    vstd::arithmetic::div_mod::lemma_fundamental_div_mod(a + b - 1, b);
    let r = (a + b - 1) % b;
    assert(a + b - 1 == b * q + r);
    assert(0 <= r < b);
    assert(q * b == b * q) by (nonlinear_arith);
    assert((q - 1) * b == q * b - b) by (nonlinear_arith);
    assert(q >= 1) by (nonlinear_arith)
        requires
            a + b - 1 == b * q + r,
            0 <= r < b,
            1 <= b <= a,
    ;
    assert(q <= a) by (nonlinear_arith)
        requires
            a + b - 1 == b * q + r,
            0 <= r < b,
            1 <= b <= a,
            q >= 1,
    ;
}

/// Whether the rendered output of this request fits in `u32` sides; always
/// true when the request is refused anyway.
pub fn output_fits(target_w: u32, target_h: u32, params: &MosaicParams) -> (r: bool)
    ensures
        r == spec_output_fits(target_w, target_h, *params),
{
    if params.grid < 1 || params.cell_width < 1 || params.cell_height < 1 || target_w
        < params.cell_width || target_h < params.cell_height || params.output_scale < 1 {
        return true;
    }
    let cw = params.cell_width as u64;
    let ch = params.cell_height as u64;
    let s = params.output_scale as u64;
    let cols = (target_w as u64 + cw - 1) / cw;
    let rows = (target_h as u64 + ch - 1) / ch;
    proof {
        lemma_ceil_div(target_w as int, cw as int);
        lemma_ceil_div(target_h as int, ch as int);
        assert(cols * cw <= 2 * u32::MAX) by (nonlinear_arith)
            requires
                cols * cw < target_w + cw,
                target_w <= u32::MAX,
                cw <= u32::MAX,
        ;
        assert(rows * ch <= 2 * u32::MAX) by (nonlinear_arith)
            requires
                rows * ch < target_h + ch,
                target_h <= u32::MAX,
                ch <= u32::MAX,
        ;
    }
    let wc = cols * cw;
    let hc = rows * ch;
    let lim = u32::MAX as u64;
    // wc * s <= lim  <=>  wc <= lim / s
    let w_ok = wc <= lim / s;
    let h_ok = hc <= lim / s;
    proof {
        vstd::arithmetic::div_mod::lemma_fundamental_div_mod(lim as int, s as int);
        assert(w_ok <==> wc * s <= lim) by (nonlinear_arith)
            requires
                w_ok == (wc <= lim / s),
                lim == s * (lim / s) + lim % s,
                0 <= lim % s < s,
                s >= 1,
        ;
        assert(h_ok <==> hc * s <= lim) by (nonlinear_arith)
            requires
                h_ok == (hc <= lim / s),
                lim == s * (lim / s) + lim % s,
                0 <= lim % s < s,
                s >= 1,
        ;
    }
    w_ok && h_ok
}

impl MosaicGrid {
    /// Ceil grid: output is >= target so every target pixel is covered.
    pub fn compute(target_w: u32, target_h: u32, params: &MosaicParams) -> (r: Result<
        MosaicGrid,
        KakeraError,
    >)
        requires
            spec_output_fits(target_w, target_h, *params),
        ensures
            spec_grid_error(target_w, target_h, *params) matches Some(e) ==> r == Err::<
                MosaicGrid,
                KakeraError,
            >(e),
            spec_grid_error(target_w, target_h, *params) is None ==> r == Ok::<
                MosaicGrid,
                KakeraError,
            >(spec_grid(target_w, target_h, *params)),
    {
        if params.grid < 1 {
            return Err(KakeraError::InvalidGrid { grid: params.grid });
        }
        if params.cell_width < 1 || params.cell_height < 1 {
            return Err(
                KakeraError::InvalidCellSize {
                    cell_width: params.cell_width,
                    cell_height: params.cell_height,
                },
            );
        }
        if target_w < params.cell_width || target_h < params.cell_height {
            return Err(
                KakeraError::TargetTooSmall {
                    width: target_w,
                    height: target_h,
                    cell_width: params.cell_width,
                    cell_height: params.cell_height,
                },
            );
        }
        if params.output_scale < 1 {
            return Err(KakeraError::InvalidOutputScale { scale: params.output_scale });
        }
        let cw = params.cell_width;
        let ch = params.cell_height;
        let s = params.output_scale;
        proof {
            lemma_ceil_div(target_w as int, cw as int);
            lemma_ceil_div(target_h as int, ch as int);
        }
        let cols = ((target_w as u64 + cw as u64 - 1) / cw as u64) as u32;
        let rows = ((target_h as u64 + ch as u64 - 1) / ch as u64) as u32;
        proof {
            assert(cols * cw <= cols * cw * s) by (nonlinear_arith)
                requires
                    s >= 1,
                    cols >= 1,
                    cw >= 1,
            ;
            assert(rows * ch <= rows * ch * s) by (nonlinear_arith)
                requires
                    s >= 1,
                    rows >= 1,
                    ch >= 1,
            ;
        }
        let out_width = cols * cw * s;
        let out_height = rows * ch * s;
        Ok(
            MosaicGrid {
                cols,
                rows,
                cell_width: cw,
                cell_height: ch,
                scale: s,
                out_width,
                out_height,
            },
        )
    }

    /// Rendered (upscaled) cell width.
    pub fn out_cell_width(&self) -> (r: u32)
        requires
            self.cell_width * self.scale <= u32::MAX,
        ensures
            r == self.cell_width * self.scale,
    {
        self.cell_width * self.scale
    }

    /// Rendered (upscaled) cell height.
    pub fn out_cell_height(&self) -> (r: u32)
        requires
            self.cell_height * self.scale <= u32::MAX,
        ensures
            r == self.cell_height * self.scale,
    {
        self.cell_height * self.scale
    }
}

/// The target region `(x, y, w, h)` of cell `(col, row)`, clipped to the target.
pub open spec fn spec_cell_region(grid: MosaicGrid, target_w: u32, target_h: u32, col: u32, row: u32) -> (
    u32,
    u32,
    u32,
    u32,
) {
    let rx = col * grid.cell_width;
    let ry = row * grid.cell_height;
    let rw = if grid.cell_width <= target_w - rx {
        grid.cell_width as int
    } else {
        target_w - rx
    };
    let rh = if grid.cell_height <= target_h - ry {
        grid.cell_height as int
    } else {
        target_h - ry
    };
    (rx as u32, ry as u32, rw as u32, rh as u32)
}

/// Per-cell target region, clipped to the target image bounds. The cell's
/// origin must lie inside the target.
pub fn cell_region(grid: &MosaicGrid, target_w: u32, target_h: u32, col: u32, row: u32) -> (r: (
    u32,
    u32,
    u32,
    u32,
))
    requires
        col * grid.cell_width < target_w,
        row * grid.cell_height < target_h,
    ensures
        r == spec_cell_region(*grid, target_w, target_h, col, row),
{
    let rx = col * grid.cell_width;
    let ry = row * grid.cell_height;
    let rw = if grid.cell_width <= target_w - rx {
        grid.cell_width
    } else {
        target_w - rx
    };
    let rh = if grid.cell_height <= target_h - ry {
        grid.cell_height
    } else {
        target_h - ry
    };
    (rx, ry, rw, rh)
}

/// Row-major `(col, row)` coordinates for every cell: cell `row * cols + col`
/// is `(col, row)`.
pub fn cell_coords(grid: &MosaicGrid) -> (r: Vec<(u32, u32)>)
    requires
        grid.cols * grid.rows <= usize::MAX,
    ensures
        r@.len() == grid.cols * grid.rows,
        forall|col: int, row: int|
            0 <= col < grid.cols && 0 <= row < grid.rows ==> #[trigger] r@[row * grid.cols + col]
                == (col as u32, row as u32),
{
    let mut out: Vec<(u32, u32)> = Vec::new();
    let mut row: u32 = 0;
    while row < grid.rows
        invariant
            row <= grid.rows,
            grid.cols * grid.rows <= usize::MAX,
            out@.len() == row * grid.cols,
            forall|c: int, rr: int|
                0 <= c < grid.cols && 0 <= rr < row ==> #[trigger] out@[rr * grid.cols + c] == (
                    c as u32,
                    rr as u32,
                ),
        decreases grid.rows - row,
    {
        let mut col: u32 = 0;
        while col < grid.cols
            invariant
                row < grid.rows,
                col <= grid.cols,
                grid.cols * grid.rows <= usize::MAX,
                out@.len() == row * grid.cols + col,
                forall|c: int, rr: int|
                    0 <= c < grid.cols && 0 <= rr < row ==> #[trigger] out@[rr * grid.cols + c]
                        == (c as u32, rr as u32),
                forall|c: int| 0 <= c < col ==> #[trigger] out@[row * grid.cols + c] == (c as u32, row),
            decreases grid.cols - col,
        {
            proof {
                assert(row * grid.cols + col < grid.cols * grid.rows) by (nonlinear_arith)
                    requires
                        row < grid.rows,
                        col < grid.cols,
                ;
            }
            out.push((col, row));
            proof {
                assert forall|c: int, rr: int|
                    0 <= c < grid.cols && 0 <= rr < row implies #[trigger] out@[rr * grid.cols + c]
                        == (c as u32, rr as u32) by {
                    assert(rr * grid.cols + c < row * grid.cols) by (nonlinear_arith)
                        requires
                            rr < row,
                            c < grid.cols,
                    ;
                }
            }
            col = col + 1;
        }
        proof {
            assert((row + 1) * grid.cols == row * grid.cols + grid.cols) by (nonlinear_arith);
        }
        row = row + 1;
    }
    proof {
        assert(row * grid.cols == grid.cols * grid.rows) by (nonlinear_arith)
            requires
                row == grid.rows,
        ;
    }
    out
}

/// Which check, if any, refuses a mosaic request, in the order the engine applies them.
pub open spec fn spec_validate(
    target_w: u32,
    target_h: u32,
    index_len: usize,
    index_grid: u32,
    params: MosaicParams,
) -> Result<MosaicGrid, KakeraError> {
    if index_len == 0 {
        Err(KakeraError::EmptyIndex)
    } else if params.grid != index_grid {
        Err(KakeraError::GridMismatch { params: params.grid, index: index_grid })
    } else if !spec_color_adjust_valid(params.color_adjust_bits) {
        Err(KakeraError::InvalidColorAdjust { value_bits: params.color_adjust_bits })
    } else {
        match spec_grid_error(target_w, target_h, params) {
            Some(e) => Err(e),
            None => Ok(spec_grid(target_w, target_h, params)),
        }
    }
}

/// Checks a mosaic request against the tile index (its size and feature
/// grid) and lays out the cell grid.
pub fn validate(
    target_w: u32,
    target_h: u32,
    index_len: usize,
    index_grid: u32,
    params: &MosaicParams,
) -> (r: Result<MosaicGrid, KakeraError>)
    requires
        index_len > 0 && params.grid == index_grid && spec_color_adjust_valid(params.color_adjust_bits)
            ==> spec_output_fits(target_w, target_h, *params),
    ensures
        r == spec_validate(target_w, target_h, index_len, index_grid, *params),
{
    if index_len == 0 {
        return Err(KakeraError::EmptyIndex);
    }
    if params.grid != index_grid {
        return Err(KakeraError::GridMismatch { params: params.grid, index: index_grid });
    }
    if !color_adjust_valid(params.color_adjust_bits) {
        return Err(KakeraError::InvalidColorAdjust { value_bits: params.color_adjust_bits });
    }
    MosaicGrid::compute(target_w, target_h, params)
}

/// The request checks, in order: an empty index is refused first; then a
/// request whose feature grid differs from the index's; then a tint
/// strength that is not a finite value in `0.0..=1.0` (binary32 encodings
/// above `1.0`'s, or negative other than `-0.0`, or NaN); a request that
/// passes these three is laid out, and succeeds exactly when the grid
/// checks pass.
pub proof fn law_validate_checks(
    target_w: u32,
    target_h: u32,
    index_len: usize,
    index_grid: u32,
    params: MosaicParams,
)
    ensures
        index_len == 0 ==> spec_validate(target_w, target_h, index_len, index_grid, params) == Err::<
            MosaicGrid,
            KakeraError,
        >(KakeraError::EmptyIndex),
        index_len > 0 && params.grid != index_grid ==> spec_validate(
            target_w,
            target_h,
            index_len,
            index_grid,
            params,
        ) == Err::<MosaicGrid, KakeraError>(
            KakeraError::GridMismatch { params: params.grid, index: index_grid },
        ),
        index_len > 0 && params.grid == index_grid && !(params.color_adjust_bits <= 0x3f80_0000u32
            || params.color_adjust_bits == 0x8000_0000u32) ==> spec_validate(
            target_w,
            target_h,
            index_len,
            index_grid,
            params,
        ) == Err::<MosaicGrid, KakeraError>(
            KakeraError::InvalidColorAdjust { value_bits: params.color_adjust_bits },
        ),
        spec_validate(target_w, target_h, index_len, index_grid, params) is Ok <==> (index_len > 0
            && params.grid == index_grid && (params.color_adjust_bits <= 0x3f80_0000u32
            || params.color_adjust_bits == 0x8000_0000u32) && params.grid >= 1 && params.cell_width
            >= 1 && params.cell_height >= 1 && target_w >= params.cell_width && target_h
            >= params.cell_height && params.output_scale >= 1),
        spec_validate(target_w, target_h, index_len, index_grid, params) matches Ok(g) ==> g
            == spec_grid(target_w, target_h, params),
{
}

/// Tinting is on for every accepted strength except zero: among the
/// encodings `spec_color_adjust_valid` accepts (`0.0..=1.0` and `-0.0`),
/// exactly `+0.0` and `-0.0` leave tiles untouched; every positive strength,
/// however small, tints.
pub proof fn law_tint_on_for_positive_strengths(bits: u32)
    requires
        spec_color_adjust_valid(bits),
    ensures
        spec_color_adjust_active(bits) <==> (bits != 0u32 && bits != NEG_ZERO_BITS),
        bits != 0u32 && bits != NEG_ZERO_BITS ==> bits <= ONE_BITS,
{
}

/// Layout of an accepted request: the grid keeps the request's cell size
/// and upscale, has the fewest columns and rows whose cells cover the
/// target (the last column and row overhang by less than one cell), and
/// the rendered output is every cell painted at `cell * scale` pixels.
pub proof fn law_grid_layout(target_w: u32, target_h: u32, params: MosaicParams)
    requires
        spec_grid_error(target_w, target_h, params) is None,
        spec_output_fits(target_w, target_h, params),
    ensures
        ({
            let g = spec_grid(target_w, target_h, params);
            &&& g.cell_width == params.cell_width
            &&& g.cell_height == params.cell_height
            &&& g.scale == params.output_scale
            &&& g.cols >= 1 && g.rows >= 1
            &&& target_w <= g.cols * g.cell_width < target_w + g.cell_width
            &&& target_h <= g.rows * g.cell_height < target_h + g.cell_height
            &&& g.out_width == g.cols * g.cell_width * g.scale
            &&& g.out_height == g.rows * g.cell_height * g.scale
            &&& g.out_width >= target_w * g.scale
            &&& g.out_height >= target_h * g.scale
        }),
{
    let cw = params.cell_width as int;
    let ch = params.cell_height as int;
    let sc = params.output_scale as int;
    lemma_ceil_div(target_w as int, cw);
    lemma_ceil_div(target_h as int, ch);
    let cols = ceil_div(target_w as int, cw);
    let rows = ceil_div(target_h as int, ch);
    let g = spec_grid(target_w, target_h, params);
    assert(g.cols == cols);
    assert(g.rows == rows);
    assert(0 <= cols * cw * sc) by (nonlinear_arith)
        requires
            cols >= 1,
            cw >= 1,
            sc >= 1,
    ;
    assert(0 <= rows * ch * sc) by (nonlinear_arith)
        requires
            rows >= 1,
            ch >= 1,
            sc >= 1,
    ;
    assert(g.out_width == cols * cw * sc);
    assert(g.out_height == rows * ch * sc);
    assert(cols * cw * sc >= target_w * sc) by (nonlinear_arith)
        requires
            cols * cw >= target_w,
            sc >= 1,
    ;
    assert(rows * ch * sc >= target_h * sc) by (nonlinear_arith)
        requires
            rows * ch >= target_h,
            sc >= 1,
    ;
}

/// Every target pixel lies in exactly one cell region: pixel `(x, y)` is in
/// the region of cell `(x / cell_width, y / cell_height)`, that cell is
/// inside the grid, and no other cell's region holds it. The output covers
/// the target.
pub proof fn law_cells_cover_target(
    target_w: u32,
    target_h: u32,
    params: MosaicParams,
    x: u32,
    y: u32,
    col: u32,
    row: u32,
)
    requires
        spec_grid_error(target_w, target_h, params) is None,
        spec_output_fits(target_w, target_h, params),
        x < target_w,
        y < target_h,
        col < spec_grid(target_w, target_h, params).cols,
        row < spec_grid(target_w, target_h, params).rows,
    ensures
        ({
            let g = spec_grid(target_w, target_h, params);
            let (rx, ry, rw, rh) = spec_cell_region(g, target_w, target_h, col, row);
            &&& col * g.cell_width < target_w
            &&& row * g.cell_height < target_h
            &&& (rx <= x < rx + rw && ry <= y < ry + rh) <==> (col == x / g.cell_width && row == y
                / g.cell_height)
            &&& x / g.cell_width < g.cols
            &&& y / g.cell_height < g.rows
            &&& g.out_width >= target_w
            &&& g.out_height >= target_h
        }),
{
    let g = spec_grid(target_w, target_h, params);
    let cw = params.cell_width as int;
    let ch = params.cell_height as int;
    lemma_ceil_div(target_w as int, cw);
    lemma_ceil_div(target_h as int, ch);
    let cols = ceil_div(target_w as int, cw);
    let rows = ceil_div(target_h as int, ch);
    assert(col * cw < target_w) by (nonlinear_arith)
        requires
            col < cols,
            (cols - 1) * cw < target_w,
            cw >= 1,
    ;
    assert(row * ch < target_h) by (nonlinear_arith)
        requires
            row < rows,
            (rows - 1) * ch < target_h,
            ch >= 1,
    ;
    lemma_axis(target_w as int, cw, x as int, col as int, cols);
    lemma_axis(target_h as int, ch, y as int, row as int, rows);
    let s = params.output_scale as int;
    assert(cols * cw <= cols * cw * s) by (nonlinear_arith)
        requires
            s >= 1,
            cols >= 1,
            cw >= 1,
    ;
    assert(rows * ch <= rows * ch * s) by (nonlinear_arith)
        requires
            s >= 1,
            rows >= 1,
            ch >= 1,
    ;
}

/// One axis of [`law_cells_cover_target`]: on a line of length `len` cut into
/// segments of `cw`, position `x` is in segment `col` exactly when `col == x / cw`.
proof fn lemma_axis(len: int, cw: int, x: int, col: int, cols: int)
    requires
        1 <= cw <= len,
        0 <= x < len,
        0 <= col < cols,
        cols == ceil_div(len, cw),
        col * cw < len,
        len <= ceil_div(len, cw) * cw,
    ensures
        ({
            let rx = col * cw;
            let rw = if cw <= len - rx {
                cw
            } else {
                len - rx
            };
            (rx <= x < rx + rw) <==> col == x / cw
        }),
        x / cw < cols,
{
    vstd::arithmetic::div_mod::lemma_fundamental_div_mod(x, cw);
    let q = x / cw;
    let r = x % cw;
    assert(x == cw * q + r);
    assert(0 <= r < cw);
    assert(q * cw == cw * q) by (nonlinear_arith);
    assert(q < cols) by (nonlinear_arith)
        requires
            x == cw * q + r,
            0 <= r,
            x < len,
            len <= cols * cw,
            cw >= 1,
    ;
    let rx = col * cw;
    if col == q {
        assert(rx <= x);
        assert(x < rx + cw);
    } else if col < q {
        assert(rx + cw <= x) by (nonlinear_arith)
            requires
                col < q,
                x == cw * q + r,
                rx == col * cw,
                r >= 0,
                cw >= 1,
        ;
    } else {
        assert(col * cw >= (q + 1) * cw) by (nonlinear_arith)
            requires
                col >= q + 1,
                cw >= 1,
        ;
        assert((q + 1) * cw == q * cw + cw) by (nonlinear_arith);
        assert(x < rx);
    }
}

} // verus!

use vstd::prelude::*;

verus! {

/// Every way an engine operation can be refused.
#[derive(Debug, Clone, PartialEq, Eq)]
#[non_exhaustive]
#[allow(inconsistent_fields)]
pub enum KakeraError {
    /// A pixel buffer does not hold `width * height * 4` bytes.
    BufferSizeMismatch { width: u32, height: u32, expected: usize, actual: usize },
    /// An image side is zero.
    ZeroDimension { width: u32, height: u32 },
    /// The feature sub-grid size is zero.
    InvalidGrid { grid: u32 },
    /// A cell side is zero.
    InvalidCellSize { cell_width: u32, cell_height: u32 },
    /// The target is narrower or shorter than one cell.
    TargetTooSmall { width: u32, height: u32, cell_width: u32, cell_height: u32 },
    /// The requested feature grid differs from the index's.
    GridMismatch { params: u32, index: u32 },
    /// There is no tile to match against.
    EmptyIndex,
    /// The tile source has no pixels for this id.
    MissingTile(u32),
    /// The tile source failed for this id.
    TileProvider { id: u32, message: String },
    /// `max_tile_usage` is zero.
    InvalidMaxTileUsage { max: u32 },
    /// `max * tiles < cells`: the cap cannot fill the grid.
    MaxTileUsageTooSmall { max: u32, tiles: usize, cells: usize },
    /// The colour-adjust strength is not a finite value in `0.0..=1.0`;
    /// carries the IEEE-754 binary32 encoding of the rejected value.
    InvalidColorAdjust { value_bits: u32 },
    /// The output scale is zero.
    InvalidOutputScale { scale: u32 },
    /// The image is too large to address.
    ImageTooLarge { width: u128, height: u128 },
}

/// Result of an engine operation.
pub type KakeraResult<T> = core::result::Result<T, KakeraError>;

} // verus!

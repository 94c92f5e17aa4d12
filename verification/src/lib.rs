//! kakera: I/O-free photomosaic engine core.
//!
//! Pixel buffers ([`RgbaImage`], [`RgbaView`]), the cell layout of a mosaic
//! ([`MosaicGrid`]), exact integer colour sums over image regions
//! ([`sums`]), and the constrained assignment of tiles to cells
//! ([`assign_picks`]). Colour averages and feature distances are
//! floating-point quantities computed by the front end from the sums here;
//! distances come back as fixed-point keys (see [`assign::DISTANCE_SCALE`]).

pub mod assign;
pub mod color;
pub mod error;
pub mod grid;
pub mod image;
pub mod laws;
pub mod paint;
pub mod provider;
pub mod sums;

pub use assign::{assign_picks, nearest, nearest_with_dist, position_of, TileId, DISTANCE_SCALE};
pub use color::{u32_to_alpha, AlphaPolicy};
pub use error::{KakeraError, KakeraResult};
pub use grid::{cell_coords, cell_region, validate, MosaicGrid, MosaicParams};
pub use image::{render_payload, RgbaImage, RgbaView};
pub use paint::{tint_cell, write_cell};
pub use provider::TileProvider;
pub use sums::{bucket_sums, fill_cell, nearest_source, source_span, window_sums, ChannelSums};

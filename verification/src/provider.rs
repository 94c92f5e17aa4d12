use vstd::prelude::*;

use crate::assign::TileId;
use crate::error::KakeraError;
use crate::image::RgbaImage;

verus! {

/// Supplies decoded RGBA pixels for a tile id on demand. Implemented by the
/// front ends; the engine stays I/O-free and only asks for the tiles it
/// actually places.
pub trait TileProvider {
    fn tile(&self, id: TileId) -> Result<RgbaImage, KakeraError>;
}

} // verus!

//! Packs equally sized tiles into a near-square grid and composites them
//! into one spritesheet raster.
pub mod grid;
pub mod raster;
pub mod sheet;

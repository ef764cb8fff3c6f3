//! A verified photo-mosaic core: tiling a target raster into a grid of
//! squares, computing mean colors, nearest-color matching against a catalog
//! of candidate images, and compositing matched tiles into an output canvas.

pub mod buffer;
pub mod color;
pub mod mosaic;
pub mod parser;

//! A maze skeleton generator: a randomized depth-first spanning tree over a
//! rectangular grid, a Bresenham line rasterizer that draws the tree edges
//! into a flat pixel buffer, and two value-to-color maps that color each edge
//! by its position in the discovery order.

pub mod color;
pub mod raster;
pub mod tree;
pub mod grid;

//! Verified core of a Mandelbrot set renderer.
//!
//! The crate holds the integer side of the renderer: the pixel grid and its
//! row-major layout, the escape-time loop and its iteration budget, the
//! shading of escape times, the rasterizer that fills a buffer, the split of
//! an image into horizontal bands for parallel workers, and the parsing of
//! coordinate pairs. Arithmetic on the complex plane is supplied by the
//! caller as closures, so every function here is proved for any such
//! arithmetic.

pub mod bands;
pub mod bounds;
pub mod driver;
pub mod escape;
pub mod parse;
pub mod raster;
pub mod shade;
pub mod tiling;

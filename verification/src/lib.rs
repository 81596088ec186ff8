//! A 2D raster canvas: an in-memory grid of RGBA pixels together with the
//! classical drawing algorithms that work on it.
//!
//! The [`Canvas`] owns the pixels. Its operations are
//!
//! - direct access to single pixels, which refuses coordinates outside the
//!   canvas ([`canvas`]);
//! - flood fill of a region with one colour or with a tiled image, in the
//!   four- or the eight-neighbourhood ([`fill`]);
//! - tracing the contour of a region ([`boundary`]);
//! - exact and smooth line segments ([`line`], [`smooth`]);
//! - triangles filled with a colour gradient ([`triangle`]);
//! - the dispatch of pointer gestures to these operations ([`tool`]).
//!
//! Every operation carries a contract over the mathematical model of the
//! canvas, a [`Raster`], and says exactly which grid it leaves behind. The
//! modules [`laws`] and [`rectangle`] prove what follows from the contracts:
//! how the operations relate to each other and what shape their results
//! have.
//!
//! Coordinates are fixed-point numbers with 256 units to the pixel, see
//! [`point`]; nothing in the library uses floating point, so every result
//! is the same on every machine.

mod arith;
pub mod boundary;
pub mod canvas;
pub mod color;
pub mod connectivity;
pub mod fill;
pub mod image;
pub mod laws;
pub mod line;
mod mask;
pub mod point;
pub mod raster;
pub mod rectangle;
pub mod region;
pub mod smooth;
pub mod tool;
pub mod triangle;

pub use canvas::{Canvas, CanvasError};
pub use color::Color;
pub use connectivity::Connectivity;
pub use image::Image;
pub use point::Point;
pub use raster::Raster;
pub use tool::{Gesture, Instrument, Pending, ToolState};

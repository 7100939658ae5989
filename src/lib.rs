//! A software triangle rasterizer over a grid of RGBA tiles.
//!
//! Geometry is in fixed point: coordinates count sixteenths of a pixel, so every
//! inside test and every barycentric weight is computed exactly. Colour
//! channels are bytes, where `255` stands for full intensity or opacity.
use vstd::prelude::*;

pub mod colorers;
pub mod framebuffer;
pub mod primatives;

verus! {

/// The faults the rasterizer reports.
#[derive(Clone, Copy, Debug, PartialEq, Eq, Structural)]
pub enum RasterError {
    /// The triangle's three vertices are collinear: it has no area.
    DegenerateTriangle,
    /// The per-vertex attribute vectors are not all given, or differ in length.
    MismatchedAttributeLength,
    /// The display could not report its size.
    DisplaySinkUnavailable,
}

} // verus!

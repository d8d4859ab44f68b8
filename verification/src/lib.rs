//! Core of a phosphor-style vectorscope: a lossy bounded channel for audio
//! frames, a per-sample geometric transform, anti-aliased line rasterization
//! with additive saturating compositing, and exponential framebuffer decay.
//!
//! All signal values and screen coordinates are fixed-point integers with a
//! 16-bit fractional part (one unit of value is `fixed::SCALE`); the boundary
//! layer converts the hardware's floating-point samples on the way in and
//! reads the byte-per-channel pixel grid on the way out.

pub mod controller;
pub mod fixed;
pub mod frame;
pub mod grid;
pub mod raster;
pub mod ring;
pub mod transform;

use vstd::prelude::*;

verus! {

} // verus!

//! Escape-time rendering of the Mandelbrot set: the viewport scaling, the
//! escape-time recurrence and the cyclic hex palette, each with a verified
//! contract.

use vstd::prelude::*;

pub mod arithmetic;
pub mod binary32;
pub mod escape;
pub mod interval;
pub mod palette;
pub mod power;
pub mod raster;
pub mod rounding;

verus! {

/// The cap on the escape-time recurrence: a point that has not escaped after
/// this many steps is taken to lie in the set.
pub const MAX_ITERATIONS: u16 = 10000;

/// The number of colours in the palette band that iteration counts cycle through.
pub const PALETTE_SIZE: u16 = 40;

/// The height of the rendered image, in pixels.
pub const SCREEN_HEIGHT: u16 = 16384;

/// The width of the rendered image, in pixels.
pub const SCREEN_WIDTH: u16 = 16384;

} // verus!

//! The image driver: every pixel of the grid, evaluated and laid out as a
//! raster of 8-bit RGB samples.

use crate::escape::mandelbrot;
use crate::palette::Color;
use vstd::prelude::*;

verus! {

/// One channel of a colour: 0 is red, 1 is green, 2 is blue.
pub open spec fn channel(color: Color, index: int) -> u8 {
    if index == 0 {
        color.red
    } else if index == 1 {
        color.green
    } else {
        color.blue
    }
}

/// The raster of the first `width` columns and `height` rows of the image:
/// row after row, three samples per pixel, so that the sample at `i` is
/// channel `i % 3` of the pixel in column `i / 3 % width` of row
/// `i / 3 / width`.
pub open spec fn raster(width: u16, height: u16) -> Seq<u8> {
    Seq::new(
        (3 * width * height) as nat,
        |i: int|
            channel(
                mandelbrot(((i / 3) % (width as int)) as u16, ((i / 3) / (width as int)) as u16),
                i % 3,
            ),
    )
}

/// Calls `image::ImageBuffer::from_fn` with `mandelbrot` as the pixel
/// function, then `into_raw`. Trusted: the buffer holds three samples per
/// pixel, rows first, each pixel being what the function gives for its column
/// and row; `from_fn` panics where the buffer cannot be allocated, which the
/// bound on the size leaves out.
#[verifier::external_body]
fn raster_from_fn(width: u16, height: u16) -> (samples: Vec<u8>)
    requires
        3 * width * height <= isize::MAX,
    ensures
        samples@ == raster(width, height),
{
    image::ImageBuffer::from_fn(
        width as u32,
        height as u32,
        |x, y| {
            let color = mandelbrot(x as u16, y as u16);
            image::Rgb([color.red, color.green, color.blue])
        },
    ).into_raw()
}

/// Renders the first `width` columns and `height` rows of the image. Gives
/// `None` where a raster of that size is more than memory can address.
pub fn render(width: u16, height: u16) -> (samples: Option<Vec<u8>>)
    ensures
        samples is Some <==> 3 * width * height <= isize::MAX,
        samples matches Some(raw) ==> raw@ == raster(width, height),
{
    assert(3 * width * height <= 3 * 0xffff * 0xffff) by (nonlinear_arith)
        requires
            width <= 0xffff,
            height <= 0xffff,
    ;
    let size: u64 = 3 * (width as u64) * (height as u64);
    if size <= isize::MAX as u64 {
        Some(raster_from_fn(width, height))
    } else {
        None
    }
}

} // verus!

//! The escape-time evaluator: how many steps of `z <- z^2 + c` a point of the
//! plane takes to leave the disc of radius two.

use crate::binary32::Binary32;
use crate::interval::{scale, Interval};
use crate::palette::{iteration_to_pixel, Color};
use crate::{MAX_ITERATIONS, SCREEN_HEIGHT, SCREEN_WIDTH};
use vstd::arithmetic::power2::*;
use vstd::prelude::*;

verus! {

/// The bits of 0.0.
pub const ZERO_BITS: u32 = 0x0000_0000;

/// The bits of 1.0.
pub const ONE_BITS: u32 = 0x3f80_0000;

/// The bits of -1.0.
pub const MINUS_ONE_BITS: u32 = 0xbf80_0000;

/// The bits of 2.0.
pub const TWO_BITS: u32 = 0x4000_0000;

/// The bits of -2.5.
pub const MINUS_TWO_AND_A_HALF_BITS: u32 = 0xc020_0000;

/// The bits of 4.0.
pub const FOUR_BITS: u32 = 0x4080_0000;

/// The real part of the point that a pixel column stands for: the column
/// scaled from `[0, SCREEN_WIDTH]` onto `[-2.5, 1.0]`.
pub open spec fn spec_plane_x(pixel_x: u16) -> Binary32 {
    scale(
        Binary32::from_u16(pixel_x),
        Interval {
            lower_bound: Binary32 { bits: ZERO_BITS },
            upper_bound: Binary32::from_u16(SCREEN_WIDTH),
        },
        Interval {
            lower_bound: Binary32 { bits: MINUS_TWO_AND_A_HALF_BITS },
            upper_bound: Binary32 { bits: ONE_BITS },
        },
    )
}

/// The imaginary part of the point that a pixel row stands for: the row
/// scaled from `[0, SCREEN_HEIGHT]` onto `[-1.0, 1.0]`.
pub open spec fn spec_plane_y(pixel_y: u16) -> Binary32 {
    scale(
        Binary32::from_u16(pixel_y),
        Interval {
            lower_bound: Binary32 { bits: ZERO_BITS },
            upper_bound: Binary32::from_u16(SCREEN_HEIGHT),
        },
        Interval {
            lower_bound: Binary32 { bits: MINUS_ONE_BITS },
            upper_bound: Binary32 { bits: ONE_BITS },
        },
    )
}

/// True while the point `(x, y)` lies inside the disc of radius two:
/// `x^2 + y^2 < 4`.
pub open spec fn inside(x: Binary32, y: Binary32) -> bool {
    x.times(x).plus(y.times(y)).less_than(Binary32 { bits: FOUR_BITS })
}

/// The real part of the next point: `x^2 - y^2 + x0`.
pub open spec fn next_x(x: Binary32, y: Binary32, x0: Binary32) -> Binary32 {
    x.times(x).minus(y.times(y)).plus(x0)
}

/// The imaginary part of the next point: `2xy + y0`.
pub open spec fn next_y(x: Binary32, y: Binary32, y0: Binary32) -> Binary32 {
    Binary32 { bits: TWO_BITS }.times(x).times(y).plus(y0)
}

/// The iteration count that the recurrence ends with when it stands at
/// `(x, y)` after `iteration` steps: it goes on while the point is inside the
/// disc and the count is below the cap.
pub open spec fn escape_count(
    x0: Binary32,
    y0: Binary32,
    x: Binary32,
    y: Binary32,
    iteration: u16,
) -> u16
    decreases MAX_ITERATIONS - iteration,
{
    if inside(x, y) && iteration < MAX_ITERATIONS {
        escape_count(x0, y0, next_x(x, y, x0), next_y(x, y, y0), (iteration + 1) as u16)
    } else {
        iteration
    }
}

/// The escape time of the point `(x0, y0)`: the recurrence started at the
/// point itself with a count of zero.
pub open spec fn spec_escape_time(x0: Binary32, y0: Binary32) -> u16 {
    escape_count(x0, y0, x0, y0, 0)
}

/// The count never passes the cap.
pub proof fn lemma_escape_count_bounded(
    x0: Binary32,
    y0: Binary32,
    x: Binary32,
    y: Binary32,
    iteration: u16,
)
    requires
        iteration <= MAX_ITERATIONS,
    ensures
        iteration <= escape_count(x0, y0, x, y, iteration) <= MAX_ITERATIONS,
    decreases MAX_ITERATIONS - iteration,
{
    if inside(x, y) && iteration < MAX_ITERATIONS {
        lemma_escape_count_bounded(
            x0,
            y0,
            next_x(x, y, x0),
            next_y(x, y, y0),
            (iteration + 1) as u16,
        );
    }
}

/// The real part of the point that a pixel column stands for.
#[verifier::when_used_as_spec(spec_plane_x)]
pub fn plane_x(pixel_x: u16) -> (x0: Binary32)
    ensures
        x0 == spec_plane_x(pixel_x),
{
    scale(
        Binary32::from_u16(pixel_x),
        Interval {
            lower_bound: Binary32 { bits: ZERO_BITS },
            upper_bound: Binary32::from_u16(SCREEN_WIDTH),
        },
        Interval {
            lower_bound: Binary32 { bits: MINUS_TWO_AND_A_HALF_BITS },
            upper_bound: Binary32 { bits: ONE_BITS },
        },
    )
}

/// The imaginary part of the point that a pixel row stands for.
#[verifier::when_used_as_spec(spec_plane_y)]
pub fn plane_y(pixel_y: u16) -> (y0: Binary32)
    ensures
        y0 == spec_plane_y(pixel_y),
{
    scale(
        Binary32::from_u16(pixel_y),
        Interval {
            lower_bound: Binary32 { bits: ZERO_BITS },
            upper_bound: Binary32::from_u16(SCREEN_HEIGHT),
        },
        Interval {
            lower_bound: Binary32 { bits: MINUS_ONE_BITS },
            upper_bound: Binary32 { bits: ONE_BITS },
        },
    )
}

/// Counts the steps of `z <- z^2 + c` from `z = c = (x0, y0)` until the
/// point leaves the disc of radius two, up to `MAX_ITERATIONS`.
#[verifier::when_used_as_spec(spec_escape_time)]
pub fn escape_time(x0: Binary32, y0: Binary32) -> (iteration: u16)
    ensures
        iteration == spec_escape_time(x0, y0),
        iteration <= MAX_ITERATIONS,
{
    let four = Binary32 { bits: FOUR_BITS };
    let two = Binary32 { bits: TWO_BITS };
    let mut x = x0;
    let mut y = y0;
    let mut iteration: u16 = 0;
    while x.times(x).plus(y.times(y)).less_than(four) && iteration < MAX_ITERATIONS
        invariant
            iteration <= MAX_ITERATIONS,
            four == (Binary32 { bits: FOUR_BITS }),
            two == (Binary32 { bits: TWO_BITS }),
            escape_count(x0, y0, x, y, iteration) == spec_escape_time(x0, y0),
        decreases MAX_ITERATIONS - iteration,
    {
        let temp_x = x.times(x).minus(y.times(y)).plus(x0);
        y = two.times(x).times(y).plus(y0);
        x = temp_x;
        iteration += 1;
    }
    iteration
}

/// The palette colour of the escape time of the point that a pixel stands for.
pub open spec fn spec_mandelbrot(pixel_x: u16, pixel_y: u16) -> Color {
    iteration_to_pixel(escape_time(plane_x(pixel_x), plane_y(pixel_y)))
}

/// The colour of a pixel: its point of the plane, the escape time of that
/// point, and the palette colour of that count.
#[verifier::when_used_as_spec(spec_mandelbrot)]
pub fn mandelbrot(pixel_x: u16, pixel_y: u16) -> (color: Color)
    ensures
        color == spec_mandelbrot(pixel_x, pixel_y),
{
    let x0 = plane_x(pixel_x);
    let y0 = plane_y(pixel_y);
    iteration_to_pixel(escape_time(x0, y0))
}

/// The recurrence leaves the origin where it is, inside the disc.
proof fn lemma_origin_is_fixed()
    ensures
        inside(Binary32 { bits: ZERO_BITS }, Binary32 { bits: ZERO_BITS }),
        next_x(
            Binary32 { bits: ZERO_BITS },
            Binary32 { bits: ZERO_BITS },
            Binary32 { bits: ZERO_BITS },
        ) == (Binary32 { bits: ZERO_BITS }),
        next_y(
            Binary32 { bits: ZERO_BITS },
            Binary32 { bits: ZERO_BITS },
            Binary32 { bits: ZERO_BITS },
        ) == (Binary32 { bits: ZERO_BITS }),
{
    let zero = Binary32 { bits: ZERO_BITS };
    let two = Binary32 { bits: TWO_BITS };
    let four = Binary32 { bits: FOUR_BITS };
    lemma2_to64();
    lemma_pow2_pos(128);
    assert(0 * pow2(0) == 0) by (nonlinear_arith);
    assert(0x80_0000 * pow2(128) > 0) by (nonlinear_arith)
        requires
            pow2(128) > 0,
    ;
    assert(zero.times(zero) == zero);
    assert(zero.plus(zero) == zero);
    assert(zero.less_than(four));
    assert(zero.minus(zero) == zero);
    assert(two.times(zero) == zero) by {
        assert(0x80_0000 * 0 == 0) by (nonlinear_arith);
    }
}

/// From the origin the count runs up to the cap, whatever it starts from.
proof fn lemma_origin_count(iteration: u16)
    requires
        iteration <= MAX_ITERATIONS,
    ensures
        escape_count(
            Binary32 { bits: ZERO_BITS },
            Binary32 { bits: ZERO_BITS },
            Binary32 { bits: ZERO_BITS },
            Binary32 { bits: ZERO_BITS },
            iteration,
        ) == MAX_ITERATIONS,
    decreases MAX_ITERATIONS - iteration,
{
    lemma_origin_is_fixed();
    if iteration < MAX_ITERATIONS {
        lemma_origin_count((iteration + 1) as u16);
    }
}

/// The origin lies in the set: its escape time is the cap.
pub proof fn lemma_origin_never_escapes()
    ensures
        escape_time(Binary32 { bits: ZERO_BITS }, Binary32 { bits: ZERO_BITS })
            == MAX_ITERATIONS,
{
    lemma_origin_count(0);
}

} // verus!

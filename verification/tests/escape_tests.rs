use mandelbrot::binary32::Binary32;
use mandelbrot::escape::{escape_time, mandelbrot, plane_x, plane_y};
use mandelbrot::interval::{scale, Interval};
use mandelbrot::palette::{iteration_to_pixel, Color};

fn datum(value: f32) -> Binary32 {
    Binary32 { bits: value.to_bits() }
}

fn interval(lower: f32, upper: f32) -> Interval {
    Interval { lower_bound: datum(lower), upper_bound: datum(upper) }
}

fn float_scale(value: f32, input: (f32, f32), output: (f32, f32)) -> f32 {
    ((value / (input.1 - input.0)) * (output.1 - output.0)) + output.0
}

fn float_escape_time(x0: f32, y0: f32) -> u16 {
    let mut x = x0;
    let mut y = y0;
    let mut iteration: u16 = 0;
    while (x * x) + (y * y) < 4.0 && iteration < 10000 {
        let temp_x = (x * x) - (y * y) + x0;
        y = (2.0 * x * y) + y0;
        x = temp_x;
        iteration += 1;
    }
    iteration
}

fn float_count(pixel_x: u16, pixel_y: u16) -> u16 {
    let x0 = float_scale(pixel_x as f32, (0.0, 16384.0), (-2.5, 1.0));
    let y0 = float_scale(pixel_y as f32, (0.0, 16384.0), (-1.0, 1.0));
    float_escape_time(x0, y0)
}

#[test]
fn range_is_upper_less_lower() {
    assert_eq!(interval(-2.5, 1.0).range().bits, 3.5f32.to_bits());
    assert_eq!(interval(0.0, 16384.0).range().bits, 16384.0f32.to_bits());
    assert_eq!(interval(3.0, 1.0).range().bits, (-2.0f32).to_bits());
}

#[test]
fn scale_maps_the_ends_of_an_interval_from_zero() {
    let input = interval(0.0, 16384.0);
    let output = interval(-2.5, 1.0);
    assert_eq!(scale(datum(0.0), input, output).bits, (-2.5f32).to_bits());
    assert_eq!(scale(datum(16384.0), input, output).bits, 1.0f32.to_bits());
    assert_eq!(scale(datum(8192.0), input, output).bits, (-0.75f32).to_bits());
}

#[test]
fn scale_does_not_subtract_the_input_lower_bound() {
    // (1 / (2 - 1)) * (10 - 0) + 0 = 10, where the usual map gives 0.
    let scaled = scale(datum(1.0), interval(1.0, 2.0), interval(0.0, 10.0));
    assert_eq!(scaled.bits, 10.0f32.to_bits());
}

#[test]
fn scale_by_an_empty_input_is_not_finite() {
    let scaled = scale(datum(1.0), interval(1.0, 1.0), interval(0.0, 10.0));
    assert_eq!(scaled.bits, f32::INFINITY.to_bits());
    let scaled = scale(datum(0.0), interval(1.0, 1.0), interval(0.0, 10.0));
    assert_eq!(scaled.bits, 0x7fc0_0000);
}

#[test]
fn scale_agrees_with_floating_point() {
    let values = [0.0f32, 1.0, 0.1, 39.0, 12345.678, -7.25, 1e-30, 3e38];
    let bounds = [(0.0f32, 40.0f32), (0.0, 16777215.0), (-2.5, 1.0), (1.0, 2.0), (0.3, 0.2)];
    for &v in values.iter() {
        for &input in bounds.iter() {
            for &output in bounds.iter() {
                let ours = scale(datum(v), interval(input.0, input.1), interval(output.0, output.1));
                let theirs = float_scale(v, input, output);
                assert_eq!(ours.bits, theirs.to_bits(), "{} {:?} {:?}", v, input, output);
            }
        }
    }
}

#[test]
fn plane_coordinates_agree_with_floating_point() {
    for pixel in (0..=u16::MAX).step_by(7) {
        let x = float_scale(pixel as f32, (0.0, 16384.0), (-2.5, 1.0));
        let y = float_scale(pixel as f32, (0.0, 16384.0), (-1.0, 1.0));
        assert_eq!(plane_x(pixel).bits, x.to_bits());
        assert_eq!(plane_y(pixel).bits, y.to_bits());
    }
}

#[test]
fn the_origin_never_escapes() {
    assert_eq!(escape_time(datum(0.0), datum(0.0)), 10000);
}

#[test]
fn the_pixel_nearest_the_origin_never_escapes() {
    assert_eq!(plane_y(8192).bits, 0.0f32.to_bits());
    assert_eq!(escape_time(plane_x(11703), plane_y(8192)), 10000);
    assert_eq!(mandelbrot(11703, 8192), iteration_to_pixel(10000));
    assert_eq!(mandelbrot(11703, 8192), Color { red: 0, green: 0, blue: 0 });
}

#[test]
fn the_right_edge_escapes_at_once() {
    assert_eq!(plane_x(16384).bits, 1.0f32.to_bits());
    assert_eq!(escape_time(plane_x(16384), plane_y(8192)), 1);
    assert_eq!(escape_time(plane_x(16384), plane_y(0)), 1);
    assert_eq!(mandelbrot(16384, 8192), iteration_to_pixel(1));
}

#[test]
fn a_point_outside_the_disc_has_count_zero() {
    assert_eq!(escape_time(datum(-2.5), datum(-1.0)), 0);
    assert_eq!(mandelbrot(0, 0), iteration_to_pixel(0));
    assert_eq!(escape_time(datum(2.0), datum(0.0)), 0);
    assert_eq!(escape_time(datum(f32::NAN), datum(0.0)), 0);
}

#[test]
fn escape_time_agrees_with_floating_point_on_a_coarse_grid() {
    for i in 0..10u16 {
        for j in 0..10u16 {
            let (px, py) = (i * 1777 + 13, j * 1777 + 29);
            let ours = escape_time(plane_x(px), plane_y(py));
            assert_eq!(ours, float_count(px, py), "pixel {} {}", px, py);
        }
    }
}

#[test]
fn escape_time_agrees_with_floating_point_along_the_boundary() {
    // A row that crosses the edge of the set many times.
    for px in (4000..12000u16).step_by(97) {
        let ours = escape_time(plane_x(px), plane_y(5400));
        assert_eq!(ours, float_count(px, 5400), "pixel {}", px);
    }
}

#[test]
fn mandelbrot_is_the_palette_colour_of_the_escape_time() {
    for &(px, py) in [(0u16, 0u16), (5000, 3000), (9000, 8000), (12000, 4000), (16383, 16383)].iter() {
        assert_eq!(mandelbrot(px, py), iteration_to_pixel(float_count(px, py)));
    }
}

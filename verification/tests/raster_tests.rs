use mandelbrot::escape::mandelbrot;
use mandelbrot::raster::render;

#[test]
fn render_lays_pixels_out_row_by_row() {
    let samples = render(5, 3).unwrap();
    assert_eq!(samples.len(), 5 * 3 * 3);
    for y in 0..3u16 {
        for x in 0..5u16 {
            let color = mandelbrot(x, y);
            let at = 3 * (y as usize * 5 + x as usize);
            assert_eq!(samples[at], color.red);
            assert_eq!(samples[at + 1], color.green);
            assert_eq!(samples[at + 2], color.blue);
        }
    }
}

#[test]
fn render_of_one_column_walks_down_the_rows() {
    let samples = render(1, 4).unwrap();
    assert_eq!(samples.len(), 12);
    for y in 0..4u16 {
        let color = mandelbrot(0, y);
        assert_eq!(&samples[3 * y as usize..3 * y as usize + 3], &[color.red, color.green, color.blue]);
    }
}

#[test]
fn render_of_an_empty_grid_is_empty() {
    assert_eq!(render(0, 0).unwrap().len(), 0);
    assert_eq!(render(0, 7).unwrap().len(), 0);
    assert_eq!(render(7, 0).unwrap().len(), 0);
}

#[test]
fn render_has_three_samples_per_pixel() {
    assert_eq!(render(16, 8).unwrap().len(), 16 * 8 * 3);
}

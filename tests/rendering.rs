use mandelbrot::{
    plan_bands, render_with, rows_per_band, shade, Band, EscapeScan, WriteCause,
    WriteImageError,
};

/// Escape time of `c = re + im i`, with the orbit computed here and the
/// decisions taken by the library's scan.
fn escape_of_point(re: f64, im: f64, limit: usize) -> Option<usize> {
    let mut scan = EscapeScan::new(limit);
    let (mut zr, mut zi) = (0.0f64, 0.0f64);
    while !scan.is_exhausted() {
        if let Some(i) = scan.observe(zr * zr + zi * zi > 4.0) {
            return Some(i);
        }
        let next_r = zr * zr - zi * zi + re;
        zi = 2.0 * zr * zi + im;
        zr = next_r;
    }
    None
}

fn scan_flags(flags: &[bool], limit: usize) -> Option<usize> {
    let mut scan = EscapeScan::new(limit);
    let mut k = 0;
    while !scan.is_exhausted() {
        if let Some(i) = scan.observe(flags[k]) {
            return Some(i);
        }
        k += 1;
    }
    None
}

#[test]
fn shade_of_non_escape_is_black() {
    assert_eq!(shade(None), 0);
}

#[test]
fn shade_of_escape_is_inverted_count() {
    assert_eq!(shade(Some(0)), 255);
    assert_eq!(shade(Some(10)), 245);
    assert_eq!(shade(Some(254)), 1);
}

#[test]
fn scan_reports_first_escape() {
    assert_eq!(scan_flags(&[false, false, true, true, false], 5), Some(2));
    assert_eq!(scan_flags(&[true, false], 2), Some(0));
}

#[test]
fn scan_reports_no_escape_when_budget_spent() {
    assert_eq!(scan_flags(&[false, false, false, true], 3), None);
    assert_eq!(scan_flags(&[], 0), None);
}

#[test]
fn escape_iteration_kept_with_larger_limit() {
    let flags = [false, false, false, true, false, false, false, false];
    assert_eq!(scan_flags(&flags, 4), Some(3));
    for limit in 4..=8 {
        assert_eq!(scan_flags(&flags, limit), Some(3));
    }
    assert_eq!(escape_of_point(1.0, 1.0, 255), Some(2));
    assert_eq!(escape_of_point(1.0, 1.0, 3), Some(2));
}

#[test]
fn origin_never_escapes() {
    for limit in [1usize, 10, 255, 1000, 10000] {
        assert_eq!(escape_of_point(0.0, 0.0, limit), None);
    }
}

#[test]
fn far_point_escapes_at_once() {
    assert_eq!(escape_of_point(3.0, 0.0, 255), Some(1));
    assert_eq!(escape_of_point(-3.0, 3.0, 255), Some(1));
}

#[test]
fn render_fills_row_major() {
    let mut pixels = vec![7u8; 6];
    render_with(&mut pixels, (3, 2), |column, row| Some(column + 10 * row));
    assert_eq!(pixels, vec![255, 254, 253, 245, 244, 243]);
}

#[test]
fn render_draws_non_escape_black() {
    let mut pixels = vec![9u8; 4];
    render_with(&mut pixels, (2, 2), |column, row| if column == row { None } else { Some(254) });
    assert_eq!(pixels, vec![0, 1, 1, 0]);
}

#[test]
fn rows_per_band_rounds_up() {
    assert_eq!(rows_per_band(200, 8), 25);
    assert_eq!(rows_per_band(10, 3), 4);
    assert_eq!(rows_per_band(1, 8), 1);
    assert_eq!(rows_per_band(750, 1), 750);
}

#[test]
fn plan_covers_rows_with_short_last_band() {
    assert_eq!(
        plan_bands(10, 4),
        vec![Band { top: 0, rows: 4 }, Band { top: 4, rows: 4 }, Band { top: 8, rows: 2 }]
    );
    assert_eq!(plan_bands(0, 4), vec![]);
}

#[test]
fn plan_of_single_rows() {
    assert_eq!(
        plan_bands(3, 1),
        vec![Band { top: 0, rows: 1 }, Band { top: 1, rows: 1 }, Band { top: 2, rows: 1 }]
    );
}

fn escape_in_view(column: usize, row: usize, width: usize, height: usize) -> Option<usize> {
    let re = -2.0 + column as f64 * 3.0 / width as f64;
    let im = 1.2 - row as f64 * 2.4 / height as f64;
    escape_of_point(re, im, 255)
}

fn render_in_bands(width: usize, height: usize, workers: usize) -> Vec<u8> {
    let mut pixels = vec![0u8; width * height];
    let plan = plan_bands(height, rows_per_band(height, workers));
    let mut rest: &mut [u8] = &mut pixels;
    for band in plan {
        let (part, tail) = rest.split_at_mut(band.rows * width);
        render_with(part, (width, band.rows), |column, row| {
            escape_in_view(column, band.top + row, width, height)
        });
        rest = tail;
    }
    assert!(rest.is_empty());
    pixels
}

#[test]
fn banded_render_equals_whole_render() {
    let (width, height) = (37, 23);
    let mut whole = vec![0u8; width * height];
    render_with(&mut whole, (width, height), |column, row| {
        escape_in_view(column, row, width, height)
    });
    assert_eq!(render_in_bands(width, height, 1), whole);
    assert_eq!(render_in_bands(width, height, 4), whole);
    assert_eq!(render_in_bands(width, height, 8), whole);
    assert_eq!(render_in_bands(width, height, height), whole);
    assert!(whole.iter().any(|&p| p == 0));
    assert!(whole.iter().any(|&p| p > 200));
}

#[test]
fn write_error_wraps_io_error() {
    let error = WriteImageError::from(std::io::Error::new(std::io::ErrorKind::Other, "disk"));
    assert!(matches!(&error.cause, WriteCause::Io(e) if e.kind() == std::io::ErrorKind::Other));
    assert_eq!(error.message(), "Failed to write image to file.");
}

#[test]
fn write_error_wraps_image_error() {
    let cause = image::ImageError::IoError(std::io::Error::new(std::io::ErrorKind::NotFound, "x"));
    let error = WriteImageError::from(cause);
    assert!(matches!(&error.cause, WriteCause::Image(image::ImageError::IoError(_))));
    assert_eq!(error.message(), "Failed to write image to file.");
}

/// The point at pixel `(column, row)` of an image of `bounds` pixels covering
/// the rectangle from `upper_left` to `lower_right`, each a pair (re, im).
fn point_at(
    bounds: (usize, usize),
    pixel: (usize, usize),
    upper_left: (f64, f64),
    lower_right: (f64, f64),
) -> (f64, f64) {
    let (width, height) = (lower_right.0 - upper_left.0, upper_left.1 - lower_right.1);
    (
        upper_left.0 + pixel.0 as f64 * width / bounds.0 as f64,
        upper_left.1 - pixel.1 as f64 * height / bounds.1 as f64,
    )
}

fn render_view(
    pixels: &mut [u8],
    bounds: (usize, usize),
    upper_left: (f64, f64),
    lower_right: (f64, f64),
) {
    render_with(pixels, bounds, |column, row| {
        let (re, im) = point_at(bounds, (column, row), upper_left, lower_right);
        escape_of_point(re, im, 255)
    });
}

fn render_view_in_bands(
    bounds: (usize, usize),
    upper_left: (f64, f64),
    lower_right: (f64, f64),
    rows: usize,
) -> Vec<u8> {
    let mut pixels = vec![0u8; bounds.0 * bounds.1];
    let mut rest: &mut [u8] = &mut pixels;
    for band in plan_bands(bounds.1, rows) {
        let (part, tail) = rest.split_at_mut(band.rows * bounds.0);
        let band_upper_left = point_at(bounds, (0, band.top), upper_left, lower_right);
        let band_lower_right =
            point_at(bounds, (bounds.0, band.top + band.rows), upper_left, lower_right);
        render_view(part, (bounds.0, band.rows), band_upper_left, band_lower_right);
        rest = tail;
    }
    pixels
}

#[test]
fn bands_with_own_viewports_equal_whole_render() {
    // Pixel steps of 1/8 keep every mapped coordinate exact in floating point.
    let bounds = (32, 16);
    let (upper_left, lower_right) = ((-2.0, 1.0), (2.0, -1.0));
    let mut whole = vec![0u8; bounds.0 * bounds.1];
    render_view(&mut whole, bounds, upper_left, lower_right);
    for workers in [1usize, 2, 4, 8, 16] {
        let rows = rows_per_band(bounds.1, workers);
        assert_eq!(render_view_in_bands(bounds, upper_left, lower_right, rows), whole);
    }
    assert!(whole.iter().any(|&p| p == 0));
    assert!(whole.iter().any(|&p| p > 200));
}

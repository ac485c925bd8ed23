//! Escape-time rendering of the Mandelbrot set into a grayscale pixel buffer.
//!
//! The library holds the decisions of the renderer: when an orbit has escaped,
//! which intensity a pixel gets, how the buffer is walked in row-major order,
//! and how the image is cut into disjoint bands of rows for concurrent work.
//! The floating-point arithmetic on complex numbers is supplied by the caller.
use vstd::prelude::*;

mod bands;
mod errors;
mod escape;
mod parse;
mod render;

pub use bands::{
    assemble, band_plan, ceil_div, lemma_bands_render_whole_image, lemma_buffer_is_picture,
    picture, plan_bands, rows_per_band, Band,
};
pub use errors::{WriteCause, WriteImageError};
pub use escape::{
    exact_orbit, exact_orbit_beyond, first_escape, lemma_bounded_orbit_never_escapes,
    lemma_escape_independent_of_limit, lemma_first_escape_is_least, lemma_origin_never_escapes,
    EscapeScan,
};
pub use parse::{
    all_digits, decimal_of, digits_value, find_byte, is_digit, pair_of, parse_dimensions,
    unsigned_part,
};
pub use render::{
    drawn, pixel_at, render_with, shade, shade_of, within_limit, ITERATION_LIMIT,
};

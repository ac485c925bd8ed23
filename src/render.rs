use vstd::prelude::*;

verus! {

/// The number of iterations an orbit is followed before a point is taken to
/// lie in the set. It matches the 8-bit range of the output.
pub const ITERATION_LIMIT: usize = 255;

/// The intensity that an escape result is drawn with: black for a point that
/// did not escape, `255 - i` for one that escaped at iteration `i`.
pub open spec fn shade_of(escape: Option<usize>) -> int {
    match escape {
        Option::None => 0,
        Option::Some(i) => 255 - i,
    }
}

/// An escape result that the iteration limit can produce.
pub open spec fn within_limit(escape: Option<usize>) -> bool {
    match escape {
        Option::None => true,
        Option::Some(i) => i < ITERATION_LIMIT,
    }
}

/// The byte written for an escape result.
pub fn shade(escape: Option<usize>) -> (r: u8)
    requires
        within_limit(escape),
    ensures
        r as int == shade_of(escape),
        escape is None ==> r == 0,
{
    match escape {
        Option::None => 0,
        Option::Some(count) => 255 - count as u8,
    }
}

/// The byte at `(column, row)` of a row-major buffer `width` pixels wide.
pub open spec fn pixel_at(pixels: Seq<u8>, width: usize, column: usize, row: usize) -> u8 {
    pixels[row * width + column]
}

/// `value` is the shade of a result that `escape_at` may give for `(column, row)`.
pub open spec fn drawn<F: Fn(usize, usize) -> Option<usize>>(
    escape_at: F,
    column: usize,
    row: usize,
    value: u8,
) -> bool {
    exists|e: Option<usize>|
        #[trigger] escape_at.ensures((column, row), e) && value as int == shade_of(e)
}

/// Fills `pixels`, a `width` by `height` image in row-major order, pixel by
/// pixel: the pixel at `(column, row)` gets the shade of `escape_at(column, row)`.
pub fn render_with<F: Fn(usize, usize) -> Option<usize>>(
    pixels: &mut [u8],
    bounds: (usize, usize),
    escape_at: F,
)
    requires
        old(pixels)@.len() == bounds.0 * bounds.1,
        forall|column: usize, row: usize|
            column < bounds.0 && row < bounds.1 ==> #[trigger] escape_at.requires((column, row)),
        forall|column: usize, row: usize, e: Option<usize>|
            #[trigger] escape_at.ensures((column, row), e) ==> within_limit(e),
    ensures
        final(pixels)@.len() == old(pixels)@.len(),
        forall|column: usize, row: usize|
            column < bounds.0 && row < bounds.1 ==> #[trigger] drawn(
                escape_at,
                column,
                row,
                pixel_at(final(pixels)@, bounds.0, column, row),
            ),
{
    let (width, height) = bounds;
    let total = pixels.len();
    let mut row: usize = 0;
    while row < height
        invariant
            row <= height,
            pixels@.len() == width * height,
            total == width * height,
            forall|column: usize, row: usize|
                column < width && row < height ==> #[trigger] escape_at.requires((column, row)),
            forall|column: usize, row: usize, e: Option<usize>|
                #[trigger] escape_at.ensures((column, row), e) ==> within_limit(e),
            forall|c: usize, r: usize|
                c < width && r < row ==> #[trigger] drawn(
                    escape_at,
                    c,
                    r,
                    pixel_at(pixels@, width, c, r),
                ),
        decreases height - row,
    {
        let mut column: usize = 0;
        while column < width
            invariant
                row < height,
                column <= width,
                pixels@.len() == width * height,
                total == width * height,
                forall|column: usize, row: usize|
                    column < width && row < height ==> #[trigger] escape_at.requires((column, row)),
                forall|column: usize, row: usize, e: Option<usize>|
                    #[trigger] escape_at.ensures((column, row), e) ==> within_limit(e),
                forall|c: usize, r: usize|
                    (c < width && r < row) || (c < column && r == row) ==> #[trigger] drawn(
                        escape_at,
                        c,
                        r,
                        pixel_at(pixels@, width, c, r),
                    ),
            decreases width - column,
        {
            proof {
                lemma_index_in_image(width, height, row, column);
            }
            let index = row * width + column;
            let escape = escape_at(column, row);
            let ghost before = pixels@;
            pixels[index] = shade(escape);
            proof {
                assert forall|c: usize, r: usize|
                    (c < width && r < row) || (c < column + 1 && r == row) implies #[trigger] drawn(
                        escape_at,
                        c,
                        r,
                        pixel_at(pixels@, width, c, r),
                    ) by {
                    if c == column && r == row {
                        assert(escape_at.ensures((c, r), escape));
                    } else {
                        lemma_index_in_image(width, height, r, c);
                        lemma_cells_differ(width, r, c, row, column);
                        assert(pixel_at(pixels@, width, c, r) == pixel_at(before, width, c, r));
                        assert(drawn(escape_at, c, r, pixel_at(before, width, c, r)));
                    }
                }
            }
            column = column + 1;
        }
        row = row + 1;
    }
}

/// The row-major index of a pixel inside the image lies inside the buffer.
proof fn lemma_index_in_image(width: usize, height: usize, row: usize, column: usize)
    requires
        row < height,
        column < width,
    ensures
        row * width + column < width * height,
{
    assert(row * width + column < width * height) by (nonlinear_arith)
        requires
            row < height,
            column < width,
    ;
}

/// Two different pixels of a row-major image have different indices.
proof fn lemma_cells_differ(width: usize, r1: usize, c1: usize, r2: usize, c2: usize)
    requires
        c1 < width,
        c2 < width,
        r1 != r2 || c1 != c2,
    ensures
        r1 * width + c1 != r2 * width + c2,
{
    if r1 != r2 {
        assert(r1 * width + c1 != r2 * width + c2) by (nonlinear_arith)
            requires
                c1 < width,
                c2 < width,
                r1 != r2,
        ;
    }
}

} // verus!

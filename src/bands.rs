use crate::render::{pixel_at, shade_of};
use vstd::prelude::*;

verus! {

/// A horizontal band of image rows: `rows` rows starting at row `top`.
#[derive(Debug, Clone, Copy, PartialEq, Eq)]
pub struct Band {
    pub top: usize,
    pub rows: usize,
}

impl Band {
    /// The band as a pair (first row, number of rows).
    pub open spec fn view(&self) -> (nat, nat) {
        (self.top as nat, self.rows as nat)
    }
}

/// `a / b` rounded up.
pub open spec fn ceil_div(a: nat, b: nat) -> nat
    recommends
        b > 0,
{
    if a % b == 0 {
        a / b
    } else {
        a / b + 1
    }
}

/// The bands of `rows_per_band` rows that cover an image of `height` rows
/// from the top, the last one holding what is left.
pub open spec fn band_plan(height: nat, rows_per_band: nat) -> Seq<(nat, nat)>
    recommends
        rows_per_band > 0,
{
    Seq::new(
        ceil_div(height, rows_per_band),
        |i: int|
            {
                let top = (i * rows_per_band) as nat;
                (top, if height - top < rows_per_band {
                    (height - top) as nat
                } else {
                    rows_per_band
                })
            },
    )
}

/// The number of rows in each band when `height` rows are shared among
/// `workers` bands: the height divided by the worker count, rounded up.
pub fn rows_per_band(height: usize, workers: usize) -> (r: usize)
    requires
        workers > 0,
    ensures
        r == ceil_div(height as nat, workers as nat),
        height > 0 ==> r > 0,
{
    let whole = height / workers;
    proof {
        vstd::arithmetic::div_mod::lemma_fundamental_div_mod(height as int, workers as int);
        assert(whole <= workers * whole) by (nonlinear_arith)
            requires
                workers > 0,
        ;
        if whole == 0 {
            assert(workers * whole == 0) by (nonlinear_arith)
                requires
                    whole == 0,
            ;
        }
    }
    if height % workers == 0 {
        whole
    } else {
        whole + 1
    }
}

/// Cuts an image of `height` rows into consecutive bands of `rows_per_band`
/// rows; the last band may be shorter.
pub fn plan_bands(height: usize, rows_per_band: usize) -> (r: Vec<Band>)
    requires
        rows_per_band > 0,
    ensures
        r@.len() == ceil_div(height as nat, rows_per_band as nat),
        forall|i: int|
            0 <= i < r@.len() ==> #[trigger] r@[i]@ == band_plan(
                height as nat,
                rows_per_band as nat,
            )[i],
        r@.map_values(|b: Band| b@) == band_plan(height as nat, rows_per_band as nat),
{
    let ghost plan = band_plan(height as nat, rows_per_band as nat);
    let mut bands: Vec<Band> = Vec::new();
    let mut top: usize = 0;
    let ghost mut i: nat = 0;
    proof {
        if height > 0 {
            let next: nat = if height < rows_per_band {
                height as nat
            } else {
                rows_per_band as nat
            };
            lemma_plan_step(height as nat, rows_per_band as nat, 0, next);
        }
    }
    while top < height
        invariant
            rows_per_band > 0,
            top <= height,
            plan == band_plan(height as nat, rows_per_band as nat),
            i == bands@.len(),
            top == i * rows_per_band || top == height,
            top < height ==> top == i * rows_per_band,
            i <= plan.len(),
            top == height ==> i == plan.len(),
            top < height ==> i < plan.len(),
            forall|j: int| 0 <= j < i ==> #[trigger] bands@[j]@ == plan[j],
        decreases height - top,
    {
        let rows = if height - top < rows_per_band {
            height - top
        } else {
            rows_per_band
        };
        let ghost prev = bands@;
        bands.push(Band { top, rows });
        proof {
            assert(bands@[i as int]@ == plan[i as int]);
            assert forall|j: int| 0 <= j < i + 1 implies #[trigger] bands@[j]@ == plan[j] by {
                if j < i {
                    assert(bands@[j] == prev[j]);
                }
            }
            lemma_plan_step(height as nat, rows_per_band as nat, i, (top + rows) as nat);
            i = i + 1;
        }
        top = top + rows;
    }
    assert(bands@.map_values(|b: Band| b@) =~= plan);
    bands
}

/// Where the band after band `i` starts, and how many bands there are.
proof fn lemma_plan_step(height: nat, rows_per_band: nat, i: nat, next: nat)
    requires
        rows_per_band > 0,
        i * rows_per_band < height,
        next == if height - i * rows_per_band < rows_per_band {
            height
        } else {
            i * rows_per_band + rows_per_band
        },
    ensures
        i < ceil_div(height, rows_per_band),
        next < height ==> next == (i + 1) * rows_per_band && i + 1 < ceil_div(height, rows_per_band),
        next == height ==> i + 1 == ceil_div(height, rows_per_band),
        next == (i + 1) * rows_per_band || next == height,
{
    let q = height / rows_per_band;
    let m = height % rows_per_band;
    vstd::arithmetic::div_mod::lemma_fundamental_div_mod(height as int, rows_per_band as int);
    assert(height == rows_per_band * q + m);
    assert(q * rows_per_band == rows_per_band * q) by (nonlinear_arith);
    assert((i + 1) * rows_per_band == i * rows_per_band + rows_per_band) by (nonlinear_arith);
    if i > q {
        assert(i * rows_per_band >= (q + 1) * rows_per_band) by (nonlinear_arith)
            requires
                i > q,
                rows_per_band > 0,
        ;
        assert((q + 1) * rows_per_band == q * rows_per_band + rows_per_band) by (nonlinear_arith);
    }
    if i == q {
        assert(i * rows_per_band == rows_per_band * q) by (nonlinear_arith)
            requires
                i == q,
        ;
    }
    if i < q {
        assert((i + 1) * rows_per_band <= q * rows_per_band) by (nonlinear_arith)
            requires
                i < q,
                rows_per_band > 0,
        ;
        if i + 1 < q {
            assert((i + 2) * rows_per_band <= q * rows_per_band) by (nonlinear_arith)
                requires
                    i + 1 < q,
                    rows_per_band > 0,
            ;
            assert((i + 2) * rows_per_band == (i + 1) * rows_per_band + rows_per_band)
                by (nonlinear_arith);
        }
    }
}

/// The bytes a renderer writes for rows `top .. top + rows` of an image
/// `width` pixels wide, in row-major order, where the pixel at
/// `(column, row)` of the whole image has the escape result `escape(column, row)`.
pub open spec fn picture(
    width: nat,
    top: nat,
    rows: nat,
    escape: spec_fn(nat, nat) -> Option<usize>,
) -> Seq<u8> {
    Seq::new(
        width * rows,
        |k: int| shade_of(escape((k % width as int) as nat, top + (k / width as int) as nat)) as u8,
    )
}

/// The pictures of the given bands, one after another.
pub open spec fn assemble(
    bands: Seq<(nat, nat)>,
    width: nat,
    escape: spec_fn(nat, nat) -> Option<usize>,
) -> Seq<u8>
    decreases bands.len(),
{
    if bands.len() == 0 {
        Seq::empty()
    } else {
        assemble(bands.drop_last(), width, escape) + picture(
            width,
            bands.last().0,
            bands.last().1,
            escape,
        )
    }
}

/// Rendering an image band by band, each band on its own slice of the buffer
/// with rows counted from the band's top, gives the same bytes as rendering
/// the whole image at once, for any band height.
///
/// Each band is taken to see the escape results of the whole image at its own
/// rows. A caller that maps a band's pixels through a viewport of the band's
/// own, computed in floating point, meets this only where that mapping gives
/// the same points as the whole image's; this law says nothing of rounding.
pub proof fn lemma_bands_render_whole_image(
    width: nat,
    height: nat,
    rows_per_band: nat,
    escape: spec_fn(nat, nat) -> Option<usize>,
)
    requires
        rows_per_band > 0,
    ensures
        assemble(band_plan(height, rows_per_band), width, escape) == picture(
            width,
            0,
            height,
            escape,
        ),
{
    lemma_plan_prefix(width, height, rows_per_band, escape, ceil_div(height, rows_per_band));
    let plan = band_plan(height, rows_per_band);
    assert(plan.take(plan.len() as int) =~= plan);
}

/// The first `n` bands of the plan render the rows above the top of band `n`.
proof fn lemma_plan_prefix(
    width: nat,
    height: nat,
    rows_per_band: nat,
    escape: spec_fn(nat, nat) -> Option<usize>,
    n: nat,
)
    requires
        rows_per_band > 0,
        n <= ceil_div(height, rows_per_band),
    ensures
        assemble(band_plan(height, rows_per_band).take(n as int), width, escape) == picture(
            width,
            0,
            if n == ceil_div(height, rows_per_band) {
                height
            } else {
                n * rows_per_band
            },
            escape,
        ),
    decreases n,
{
    let plan = band_plan(height, rows_per_band);
    if n == 0 {
        assert(plan.take(0) =~= Seq::<(nat, nat)>::empty());
        assert(width * 0 == 0) by (nonlinear_arith);
        if ceil_div(height, rows_per_band) == 0 {
            assert(height == 0) by {
                if height > 0 {
                    lemma_plan_step(
                        height,
                        rows_per_band,
                        0,
                        if height < rows_per_band {
                            height
                        } else {
                            rows_per_band
                        },
                    );
                }
            }
        }
        assert(picture(width, 0, 0, escape) =~= Seq::<u8>::empty());
    } else {
        let i = (n - 1) as nat;
        lemma_band_top_inside(height, rows_per_band, i);
        lemma_plan_prefix(width, height, rows_per_band, escape, i);
        let top = i * rows_per_band;
        let rows: nat = if height - top < rows_per_band {
            (height - top) as nat
        } else {
            rows_per_band
        };
        lemma_plan_step(height, rows_per_band, i, top + rows);
        assert(plan.take(n as int).drop_last() =~= plan.take(i as int));
        assert(plan.take(n as int).last() == (top, rows));
        lemma_pictures_join(width, top, rows, escape);
    }
}

/// Every band of the plan starts inside the image.
proof fn lemma_band_top_inside(height: nat, rows_per_band: nat, i: nat)
    requires
        rows_per_band > 0,
        i < ceil_div(height, rows_per_band),
    ensures
        i * rows_per_band < height,
{
    let q = height / rows_per_band;
    let m = height % rows_per_band;
    vstd::arithmetic::div_mod::lemma_fundamental_div_mod(height as int, rows_per_band as int);
    if m == 0 {
        assert(i * rows_per_band < height) by (nonlinear_arith)
            requires
                i < q,
                height == rows_per_band * q,
                rows_per_band > 0,
        ;
    } else {
        assert(i * rows_per_band < height) by (nonlinear_arith)
            requires
                i <= q,
                height == rows_per_band * q + m,
                m > 0,
        ;
    }
}

/// A buffer of `rows` rows, `width` pixels wide, in which every pixel holds the
/// shade of the escape result at its place in the whole image, counted from row
/// `top`, is the picture of those rows.
pub proof fn lemma_buffer_is_picture(
    pixels: Seq<u8>,
    width: usize,
    top: nat,
    rows: usize,
    escape: spec_fn(nat, nat) -> Option<usize>,
)
    requires
        pixels.len() == width * rows,
        forall|column: usize, row: usize|
            column < width && row < rows ==> #[trigger] pixel_at(pixels, width, column, row)
                == shade_of(escape(column as nat, top + row as nat)) as u8,
    ensures
        pixels == picture(width as nat, top, rows as nat, escape),
{
    let whole = picture(width as nat, top, rows as nat, escape);
    assert forall|k: int| 0 <= k < pixels.len() implies pixels[k] == whole[k] by {
        let w = width as int;
        assert(w > 0) by {
            if w == 0 {
                assert(w * rows == 0) by (nonlinear_arith)
                    requires
                        w == 0,
                ;
            }
        }
        vstd::arithmetic::div_mod::lemma_fundamental_div_mod(k, w);
        let column = (k % w) as usize;
        let row = (k / w) as usize;
        assert(k / w < rows) by {
            vstd::arithmetic::div_mod::lemma_div_is_ordered(k, w * rows - 1, w);
            assert((w * rows - 1) / w < rows as int) by {
                vstd::arithmetic::div_mod::lemma_div_by_multiple(rows as int, w);
                assert(w * rows == rows * w) by (nonlinear_arith);
                vstd::arithmetic::div_mod::lemma_div_is_ordered(w * rows - 1, rows * w, w);
                if (w * rows - 1) / w == rows as int {
                    vstd::arithmetic::div_mod::lemma_fundamental_div_mod(w * rows - 1, w);
                    assert(false) by (nonlinear_arith)
                        requires
                            w * rows - 1 == w * ((w * rows - 1) / w) + (w * rows - 1) % w,
                            (w * rows - 1) / w == rows as int,
                            (w * rows - 1) % w >= 0,
                    ;
                }
            }
        }
        assert(row * width + column == k) by (nonlinear_arith)
            requires
                k == w * (k / w) + k % w,
                row == k / w,
                column == k % w,
                width == w,
        ;
        assert(pixel_at(pixels, width, column, row) == shade_of(escape(column as nat, top + row as nat))
            as u8);
    }
    assert(pixels =~= whole);
}

/// A picture of `top` rows followed by the picture of the next `rows` rows
/// is the picture of the first `top + rows` rows.
proof fn lemma_pictures_join(
    width: nat,
    top: nat,
    rows: nat,
    escape: spec_fn(nat, nat) -> Option<usize>,
)
    ensures
        picture(width, 0, top, escape) + picture(width, top, rows, escape) == picture(
            width,
            0,
            top + rows,
            escape,
        ),
{
    let upper = picture(width, 0, top, escape);
    let lower = picture(width, top, rows, escape);
    let whole = picture(width, 0, top + rows, escape);
    assert(width * (top + rows) == width * top + width * rows) by (nonlinear_arith);
    assert forall|k: int| 0 <= k < whole.len() implies (upper + lower)[k] == whole[k] by {
        if k >= upper.len() {
            let j = k - upper.len();
            assert(width > 0) by {
                if width == 0 {
                    assert(width * (top + rows) == 0) by (nonlinear_arith)
                        requires
                            width == 0,
                    ;
                }
            }
            let w = width as int;
            vstd::arithmetic::div_mod::lemma_fundamental_div_mod(j, w);
            assert(k == (top + j / w) * w + j % w) by (nonlinear_arith)
                requires
                    j == w * (j / w) + j % w,
                    k == j + w * top,
            ;
            vstd::arithmetic::div_mod::lemma_fundamental_div_mod_converse(
                k,
                w,
                top + j / w,
                j % w,
            );
        }
    }
    assert(upper + lower =~= whole);
}

} // verus!

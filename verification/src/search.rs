//! Texture synthesis one pixel at a time: the output grows from a small seed,
//! each new pixel taken from the place in the source whose surroundings
//! resemble most what is already there.

use vstd::prelude::*;
use rand::XorShiftRng;
use crate::distance::{l2, spec_l2};
use crate::errors::{Error, InvalidArgument, SynthesisFault};
use crate::grid::{Grid, Rect, MAX_CELLS, area_of};
use crate::mean::{Candidate, MeanError, choose_among, fraction_within, spec_listed};
use crate::parallel::{grid_cells, par_map, spec_holds};
use crate::pixel::{Image, Mask, Rgb};
use crate::random::{below, new_rng_random_seed};
use crate::sum::{
    grid_sum,
    row_sum,
    lemma_grid_sum_bound,
    lemma_grid_sum_grows,
    lemma_grid_sum_one_change,
    lemma_grid_sum_term,
    lemma_grid_sum_zero,
    lemma_row_sum_grows,
};

verus! {

/// Side of the seed block.
pub const SEED_SIZE: u32 = 3;

/// Parameters of the pixel search.
///
/// * `size`: size of the synthesised image
/// * `window_size`: side of the search window, an odd number
/// * `seed_coords`: top-left corner, in the source, of the seed block; chosen
///   at random where it is `None`
#[derive(Clone, Copy, Debug)]
pub struct PixelSearchParams {
    size: (u32, u32),
    window_size: u32,
    seed_coords: Option<(u32, u32)>,
}

impl PixelSearchParams {
    /// Size of the synthesised image, as `(width, height)`.
    pub closed spec fn size(&self) -> (u32, u32) {
        self.size
    }

    /// Side of the search window.
    pub closed spec fn window_size(&self) -> u32 {
        self.window_size
    }

    /// Top-left corner of the seed block in the source, if it is fixed.
    pub closed spec fn seed_coords(&self) -> Option<(u32, u32)> {
        self.seed_coords
    }

    /// The invariant: the window has an odd side.
    pub open spec fn wf(&self) -> bool {
        self.window_size() % 2 == 1
    }

    /// How far the window reaches from its centre.
    pub open spec fn reach(&self) -> int {
        (self.window_size() - 1) / 2
    }

    /// The parameters, where `window_size` is odd; an even `window_size` is
    /// refused.
    pub fn new(size: (u32, u32), window_size: u32, seed_coords: Option<(u32, u32)>) -> (r: Result<
        PixelSearchParams,
        Error,
    >)
        ensures
            r is Ok <==> window_size % 2 == 1,
            r matches Ok(p) ==> p.wf() && p.size() == size && p.window_size() == window_size
                && p.seed_coords() == seed_coords,
            r matches Err(e) ==> e == Error::InvalidArguments(InvalidArgument::EvenWindowSize),
    {
        if window_size % 2 == 0 {
            return Err(Error::InvalidArguments(InvalidArgument::EvenWindowSize));
        }
        Ok(PixelSearchParams { size, window_size, seed_coords })
    }
}

/// Whether the cell `(x, y)` of the mask is filled.
pub open spec fn spec_mask_on(mask: &Mask, x: int, y: int) -> bool {
    mask.at(x, y)
}

/// Whether a cell next to `(x, y)`, to its left, right, top or bottom and
/// inside the mask, is filled.
pub open spec fn spec_is_edge_pixel(mask: &Mask, x: int, y: int) -> bool {
    ||| (x != 0 && spec_mask_on(mask, x - 1, y))
    ||| (x != mask.spec_width() - 1 && spec_mask_on(mask, x + 1, y))
    ||| (y != 0 && spec_mask_on(mask, x, y - 1))
    ||| (y != mask.spec_height() - 1 && spec_mask_on(mask, x, y + 1))
}

/// The number of cells of the mask that are not filled yet.
pub open spec fn spec_unfilled(mask: &Mask) -> nat {
    grid_sum(
        |x: int, y: int|
            if mask.at(x, y) {
                0nat
            } else {
                1nat
            },
        mask.spec_width() as int,
        mask.spec_height() as int,
    )
}

/// The first column or row of the window of reach `reach` around `centre`.
pub open spec fn spec_window_start(centre: int, reach: int) -> int {
    if centre <= reach {
        0
    } else {
        centre - reach
    }
}

/// One past the last column or row of the window of reach `reach` around
/// `centre`, on an axis of `limit` cells.
pub open spec fn spec_window_end(centre: int, reach: int, limit: int) -> int {
    if centre + reach < limit - 1 {
        centre + reach + 1
    } else {
        limit
    }
}

/// The number of filled cells, other than `(x, y)` itself, in the window of
/// reach `reach` around `(x, y)`, as far as the window lies inside the mask.
pub open spec fn spec_num_neighbours(mask: &Mask, reach: int, x: int, y: int) -> nat {
    let xs = spec_window_start(x, reach);
    let ys = spec_window_start(y, reach);
    let xe = spec_window_end(x, reach, mask.spec_width() as int);
    let ye = spec_window_end(y, reach, mask.spec_height() as int);
    grid_sum(
        |i: int, j: int|
            if (xs + i != x || ys + j != y) && mask.at(xs + i, ys + j) {
                1nat
            } else {
                0nat
            },
        xe - xs,
        ye - ys,
    )
}

/// The smallest of three numbers.
pub open spec fn spec_min3(a: int, b: int, c: int) -> int {
    if a <= b && a <= c {
        a
    } else if b <= c {
        b
    } else {
        c
    }
}

/// The smallest of three numbers.
pub fn min3(a: u32, b: u32, c: u32) -> (m: u32)
    ensures
        m == spec_min3(a as int, b as int, c as int),
{
    if a <= b && a <= c {
        a
    } else if b <= c {
        b
    } else {
        c
    }
}

/// The window in which the surroundings of a buffer pixel and of a source
/// pixel are compared: how far it reaches to the left, to the top, to the
/// right and to the bottom of both, cut where either image ends.
pub struct Overlap {
    pub left: int,
    pub top: int,
    pub right: int,
    pub bottom: int,
}

impl Overlap {
    /// Number of columns.
    pub open spec fn width(&self) -> int {
        self.left + self.right + 1
    }

    /// Number of rows.
    pub open spec fn height(&self) -> int {
        self.top + self.bottom + 1
    }
}

/// The window shared by the surroundings of the pixel `(px, py)` of the
/// buffer that `mask` describes and of the pixel `(cx, cy)` of `source`.
pub open spec fn spec_overlap(
    source: &Image,
    reach: int,
    mask: &Mask,
    px: int,
    py: int,
    cx: int,
    cy: int,
) -> Overlap {
    Overlap {
        left: spec_min3(reach, px, cx),
        top: spec_min3(reach, py, cy),
        right: spec_min3(reach, source.spec_width() - cx - 1, mask.spec_width() - px - 1),
        bottom: spec_min3(reach, source.spec_height() - cy - 1, mask.spec_height() - py - 1),
    }
}

/// The number of filled buffer cells in the window shared by `(px, py)` and
/// `(cx, cy)`.
pub open spec fn spec_overlap_count(
    source: &Image,
    reach: int,
    mask: &Mask,
    px: int,
    py: int,
    cx: int,
    cy: int,
) -> nat {
    let o = spec_overlap(source, reach, mask, px, py, cx, cy);
    grid_sum(
        |i: int, j: int|
            if mask.at(px - o.left + i, py - o.top + j) {
                1nat
            } else {
                0nat
            },
        o.width(),
        o.height(),
    )
}

/// The sum, over the filled buffer cells in the window shared by `(px, py)`
/// and `(cx, cy)`, of the distance between the buffer's colour and the colour
/// at the same place around `(cx, cy)` in the source.
pub open spec fn spec_overlap_total(
    source: &Image,
    reach: int,
    mask: &Mask,
    buffer: &Image,
    px: int,
    py: int,
    cx: int,
    cy: int,
) -> nat {
    let o = spec_overlap(source, reach, mask, px, py, cx, cy);
    grid_sum(
        |i: int, j: int|
            if mask.at(px - o.left + i, py - o.top + j) {
                spec_l2(
                    source.at(cx - o.left + i, cy - o.top + j),
                    buffer.at(px - o.left + i, py - o.top + j),
                )
            } else {
                0nat
            },
        o.width(),
        o.height(),
    )
}

/// The source pixel `(cx, cy)` can stand for the buffer pixel `(px, py)`:
/// some filled buffer cell lies in the window that the two share.
pub open spec fn spec_comparable(
    source: &Image,
    reach: int,
    mask: &Mask,
    px: int,
    py: int,
    cx: int,
    cy: int,
) -> bool {
    source.has(cx, cy) && spec_overlap_count(source, reach, mask, px, py, cx, cy) > 0
}

/// The source pixel `(cx, cy)` is among the best for the buffer pixel
/// `(px, py)`: it can stand for it, and its mean error is within ten percent
/// of the mean error of every source pixel that can.
pub open spec fn spec_near_best(
    source: &Image,
    reach: int,
    mask: &Mask,
    buffer: &Image,
    px: int,
    py: int,
    cx: int,
    cy: int,
) -> bool {
    &&& spec_comparable(source, reach, mask, px, py, cx, cy)
    &&& forall|mx: int, my: int| #[trigger]
        spec_comparable(source, reach, mask, px, py, mx, my) ==> fraction_within(
            spec_overlap_total(source, reach, mask, buffer, px, py, cx, cy),
            spec_overlap_count(source, reach, mask, px, py, cx, cy),
            spec_overlap_total(source, reach, mask, buffer, px, py, mx, my),
            spec_overlap_count(source, reach, mask, px, py, mx, my),
        )
}

/// The cell `(x, y)` is on the frontier: not filled yet, and next to a filled
/// cell.
pub open spec fn spec_is_frontier(mask: &Mask, x: int, y: int) -> bool {
    mask.has(x, y) && !spec_mask_on(mask, x, y) && spec_is_edge_pixel(mask, x, y)
}

/// The colour `p` is that of some pixel of `source`.
pub open spec fn spec_appears_in(source: &Image, p: Rgb) -> bool {
    exists|sx: int, sy: int| source.has(sx, sy) && #[trigger] source.at(sx, sy) == p
}

/// Whether the cell `(x, y)` of the mask is filled.
pub fn mask_on(mask: &Mask, x: u32, y: u32) -> (b: bool)
    requires
        mask.wf(),
        mask.has(x as int, y as int),
    ensures
        b == spec_mask_on(mask, x as int, y as int),
{
    mask.get_pixel(x, y)
}

/// Whether a cell next to `(x, y)`, to its left, right, top or bottom and
/// inside the mask, is filled.
pub fn is_edge_pixel(mask: &Mask, x: u32, y: u32) -> (b: bool)
    requires
        mask.wf(),
        mask.has(x as int, y as int),
    ensures
        b == spec_is_edge_pixel(mask, x as int, y as int),
{
    (if x != 0 {
        mask_on(mask, x - 1, y)
    } else {
        false
    }) || (if x != mask.width() - 1 {
        mask_on(mask, x + 1, y)
    } else {
        false
    }) || (if y != 0 {
        mask_on(mask, x, y - 1)
    } else {
        false
    }) || (if y != mask.height() - 1 {
        mask_on(mask, x, y + 1)
    } else {
        false
    })
}

/// Compute the number of filled cells in the window of reach `reach` around
/// the specified pixel, the pixel itself left out.
pub fn pixel_num_neigbours(mask: &Mask, reach: u32, coords: (u32, u32)) -> (n: u32)
    requires
        mask.wf(),
        mask.has(coords.0 as int, coords.1 as int),
    ensures
        n == spec_num_neighbours(mask, reach as int, coords.0 as int, coords.1 as int),
{
    let xs: u32 = if coords.0 <= reach {
        0
    } else {
        coords.0 - reach
    };
    let ys: u32 = if coords.1 <= reach {
        0
    } else {
        coords.1 - reach
    };
    let xe: u32 = if (coords.0 as u64) + (reach as u64) < (mask.width() as u64) - 1 {
        coords.0 + reach + 1
    } else {
        mask.width()
    };
    let ye: u32 = if (coords.1 as u64) + (reach as u64) < (mask.height() as u64) - 1 {
        coords.1 + reach + 1
    } else {
        mask.height()
    };
    let ghost f = |i: int, j: int|
        if (xs + i != coords.0 as int || ys + j != coords.1 as int) && mask.at(xs + i, ys + j) {
            1nat
        } else {
            0nat
        };
    proof {
        mask.lemma_area();
        lemma_grid_sum_bound(f, xe - xs, ye - ys, 1);
        assert((xe - xs) * (ye - ys) <= mask.spec_width() * mask.spec_height())
            by (nonlinear_arith)
            requires
                0 <= xe - xs <= mask.spec_width(),
                0 <= ye - ys <= mask.spec_height(),
        ;
    }
    let mut neighbours: u32 = 0;
    let mut y: u32 = ys;
    while y < ye
        invariant
            mask.wf(),
            ys <= y <= ye <= mask.spec_height(),
            xs <= xe <= mask.spec_width(),
            f == (|i: int, j: int|
                if (xs + i != coords.0 as int || ys + j != coords.1 as int) && mask.at(
                    xs + i,
                    ys + j,
                ) {
                    1nat
                } else {
                    0nat
                }),
            neighbours == grid_sum(f, xe - xs, y - ys),
            grid_sum(f, xe - xs, ye - ys) <= MAX_CELLS,
        decreases ye - y,
    {
        let mut x: u32 = xs;
        proof {
            lemma_grid_sum_grows(f, xe - xs, y - ys + 1, ye - ys);
        }
        while x < xe
            invariant
                mask.wf(),
                ys <= y < ye <= mask.spec_height(),
                xs <= x <= xe <= mask.spec_width(),
                f == (|i: int, j: int|
                    if (xs + i != coords.0 as int || ys + j != coords.1 as int) && mask.at(
                        xs + i,
                        ys + j,
                    ) {
                        1nat
                    } else {
                        0nat
                    }),
                neighbours == grid_sum(f, xe - xs, y - ys) + row_sum(f, x - xs, y - ys),
                grid_sum(f, xe - xs, y - ys + 1) <= MAX_CELLS,
            decreases xe - x,
        {
            proof {
                lemma_row_sum_grows(f, x - xs + 1, xe - xs, y - ys);
            }
            if (x != coords.0 || y != coords.1) && mask_on(mask, x, y) {
                neighbours += 1;
            }
            x += 1;
        }
        y += 1;
    }
    neighbours
}

/// `r` is the error of the source pixel `(cx, cy)` for the buffer pixel
/// `(px, py)`: the mean distance over the filled cells of the window that the
/// two share, or `None` where no cell of that window is filled.
pub open spec fn spec_is_error(
    r: Option<MeanError>,
    source: &Image,
    reach: int,
    mask: &Mask,
    buffer: &Image,
    px: int,
    py: int,
    cx: int,
    cy: int,
) -> bool {
    &&& r is Some <==> spec_overlap_count(source, reach, mask, px, py, cx, cy) > 0
    &&& r matches Some(m) ==> {
        &&& m.wf()
        &&& m.count() == spec_overlap_count(source, reach, mask, px, py, cx, cy)
        &&& m.total() == spec_overlap_total(source, reach, mask, buffer, px, py, cx, cy)
    }
}

/// Compute the error between the surroundings of `pixel` in the buffer and
/// those of `candidate` in the source: the mean distance over the filled
/// cells of the window that the two share, or `None` where no cell of that
/// window is filled.
pub fn neighbourhood_error(
    source: &Image,
    reach: u32,
    mask: &Mask,
    pixel: (u32, u32),
    candidate: (u32, u32),
    buffer: &Image,
) -> (r: Option<MeanError>)
    requires
        source.wf(),
        mask.wf(),
        buffer.wf(),
        buffer.spec_width() == mask.spec_width(),
        buffer.spec_height() == mask.spec_height(),
        mask.has(pixel.0 as int, pixel.1 as int),
        source.has(candidate.0 as int, candidate.1 as int),
    ensures
        spec_is_error(
            r,
            source,
            reach as int,
            mask,
            buffer,
            pixel.0 as int,
            pixel.1 as int,
            candidate.0 as int,
            candidate.1 as int,
        ),
{
    let xs = min3(reach, pixel.0, candidate.0);
    let ys = min3(reach, pixel.1, candidate.1);
    let xe = min3(reach, source.width() - candidate.0 - 1, mask.width() - pixel.0 - 1);
    let ye = min3(reach, source.height() - candidate.1 - 1, mask.height() - pixel.1 - 1);
    let w: u32 = xs + xe + 1;
    let h: u32 = ys + ye + 1;
    let bx0: u32 = pixel.0 - xs;
    let by0: u32 = pixel.1 - ys;
    let sx0: u32 = candidate.0 - xs;
    let sy0: u32 = candidate.1 - ys;
    let ghost fc = |i: int, j: int|
        if mask.at(bx0 + i, by0 + j) {
            1nat
        } else {
            0nat
        };
    let ghost ft = |i: int, j: int|
        if mask.at(bx0 + i, by0 + j) {
            spec_l2(source.at(sx0 + i, sy0 + j), buffer.at(bx0 + i, by0 + j))
        } else {
            0nat
        };
    proof {
        mask.lemma_area();
        lemma_grid_sum_bound(fc, w as int, h as int, 1);
        assert(w * h <= mask.spec_width() * mask.spec_height()) by (nonlinear_arith)
            requires
                0 <= w <= mask.spec_width(),
                0 <= h <= mask.spec_height(),
        ;
    }
    let mut total: u64 = 0;
    let mut count: u32 = 0;
    let mut j: u32 = 0;
    while j < h
        invariant
            source.wf(),
            mask.wf(),
            buffer.wf(),
            buffer.spec_width() == mask.spec_width(),
            buffer.spec_height() == mask.spec_height(),
            j <= h,
            bx0 + w <= mask.spec_width(),
            by0 + h <= mask.spec_height(),
            sx0 + w <= source.spec_width(),
            sy0 + h <= source.spec_height(),
            fc == (|i: int, j: int|
                if mask.at(bx0 + i, by0 + j) {
                    1nat
                } else {
                    0nat
                }),
            ft == (|i: int, j: int|
                if mask.at(bx0 + i, by0 + j) {
                    spec_l2(source.at(sx0 + i, sy0 + j), buffer.at(bx0 + i, by0 + j))
                } else {
                    0nat
                }),
            count == grid_sum(fc, w as int, j as int),
            total == grid_sum(ft, w as int, j as int),
            total <= 441 * count,
            grid_sum(fc, w as int, h as int) <= MAX_CELLS,
        decreases h - j,
    {
        proof {
            lemma_grid_sum_grows(fc, w as int, j + 1, h as int);
        }
        let mut i: u32 = 0;
        while i < w
            invariant
                source.wf(),
                mask.wf(),
                buffer.wf(),
                buffer.spec_width() == mask.spec_width(),
                buffer.spec_height() == mask.spec_height(),
                j < h,
                i <= w,
                bx0 + w <= mask.spec_width(),
                by0 + h <= mask.spec_height(),
                sx0 + w <= source.spec_width(),
                sy0 + h <= source.spec_height(),
                fc == (|i: int, j: int|
                    if mask.at(bx0 + i, by0 + j) {
                        1nat
                    } else {
                        0nat
                    }),
                ft == (|i: int, j: int|
                    if mask.at(bx0 + i, by0 + j) {
                        spec_l2(source.at(sx0 + i, sy0 + j), buffer.at(bx0 + i, by0 + j))
                    } else {
                        0nat
                    }),
                count == grid_sum(fc, w as int, j as int) + row_sum(fc, i as int, j as int),
                total == grid_sum(ft, w as int, j as int) + row_sum(ft, i as int, j as int),
                total <= 441 * count,
                grid_sum(fc, w as int, j + 1) <= MAX_CELLS,
            decreases w - i,
        {
            proof {
                lemma_row_sum_grows(fc, i + 1, w as int, j as int);
            }
            if mask_on(mask, bx0 + i, by0 + j) {
                let p = source.get_pixel(sx0 + i, sy0 + j);
                let q = buffer.get_pixel(bx0 + i, by0 + j);
                total = total + l2(&p, &q) as u64;
                count = count + 1;
            }
            i += 1;
        }
        j += 1;
    }
    MeanError::try_from(total, count)
}

impl Candidate {
    /// The candidate is a pixel of `source` that can stand for the buffer
    /// pixel `(px, py)`, and `error` is its mean error.
    pub open spec fn describes(
        &self,
        source: &Image,
        reach: int,
        mask: &Mask,
        buffer: &Image,
        px: int,
        py: int,
    ) -> bool {
        &&& spec_comparable(
            source,
            reach,
            mask,
            px,
            py,
            self.coords.0 as int,
            self.coords.1 as int,
        )
        &&& self.error.count() == spec_overlap_count(
            source,
            reach,
            mask,
            px,
            py,
            self.coords.0 as int,
            self.coords.1 as int,
        )
        &&& self.error.total() == spec_overlap_total(
            source,
            reach,
            mask,
            buffer,
            px,
            py,
            self.coords.0 as int,
            self.coords.1 as int,
        )
    }
}

/// The source pixels that can stand for the buffer pixel `pixel`, each with
/// its mean error, row by row.
pub fn candidate_errors(
    source: &Image,
    reach: u32,
    mask: &Mask,
    pixel: (u32, u32),
    buffer: &Image,
) -> (out: Vec<Candidate>)
    requires
        source.wf(),
        mask.wf(),
        buffer.wf(),
        buffer.spec_width() == mask.spec_width(),
        buffer.spec_height() == mask.spec_height(),
        mask.has(pixel.0 as int, pixel.1 as int),
    ensures
        forall|k: int|
            0 <= k < out@.len() ==> (#[trigger] out@[k]).describes(
                source,
                reach as int,
                mask,
                buffer,
                pixel.0 as int,
                pixel.1 as int,
            ),
        forall|cx: int, cy: int| #[trigger]
            spec_comparable(source, reach as int, mask, pixel.0 as int, pixel.1 as int, cx, cy)
                ==> spec_listed(out@, cx, cy),
{
    let cells = grid_cells(source.width(), source.height());
    let error_of = |c: &(u32, u32)| -> (r: Option<MeanError>)
        requires
            source.has(c.0 as int, c.1 as int),
        ensures
            spec_is_error(
                r,
                source,
                reach as int,
                mask,
                buffer,
                pixel.0 as int,
                pixel.1 as int,
                c.0 as int,
                c.1 as int,
            ),
        { neighbourhood_error(source, reach, mask, pixel, *c, buffer) };
    let errors = par_map(&cells, error_of);
    proof {
        assert forall|i: int| 0 <= i < cells@.len() implies spec_is_error(
            #[trigger] errors@[i],
            source,
            reach as int,
            mask,
            buffer,
            pixel.0 as int,
            pixel.1 as int,
            cells@[i].0 as int,
            cells@[i].1 as int,
        ) by {
            assert(call_ensures(error_of, (&cells@[i],), errors@[i]));
        }
    }
    let mut out: Vec<Candidate> = Vec::new();
    let n = cells.len();
    let mut k: usize = 0;
    while k < n
        invariant
            n == cells@.len(),
            n == errors@.len(),
            k <= n,
            forall|i: int|
                0 <= i < n ==> spec_is_error(
                    #[trigger] errors@[i],
                    source,
                    reach as int,
                    mask,
                    buffer,
                    pixel.0 as int,
                    pixel.1 as int,
                    cells@[i].0 as int,
                    cells@[i].1 as int,
                ),
            forall|i: int| 0 <= i < n ==> source.has((#[trigger] cells@[i]).0 as int, cells@[i].1 as int),
            forall|i: int|
                0 <= i < out@.len() ==> (#[trigger] out@[i]).describes(
                    source,
                    reach as int,
                    mask,
                    buffer,
                    pixel.0 as int,
                    pixel.1 as int,
                ),
            forall|i: int|
                0 <= i < k && spec_comparable(
                    source,
                    reach as int,
                    mask,
                    pixel.0 as int,
                    pixel.1 as int,
                    (#[trigger] cells@[i]).0 as int,
                    cells@[i].1 as int,
                ) ==> spec_listed(out@, cells@[i].0 as int, cells@[i].1 as int),
        decreases n - k,
    {
        let ghost before = out@;
        match errors[k] {
            Some(error) => {
                out.push(Candidate { coords: cells[k], error });
                proof {
                    assert(out@[before.len() as int].coords == cells@[k as int]);
                    assert(spec_listed(out@, cells@[k as int].0 as int, cells@[k as int].1 as int));
                }
            },
            None => {},
        }
        proof {
            assert forall|i: int|
                0 <= i < k + 1 && spec_comparable(
                    source,
                    reach as int,
                    mask,
                    pixel.0 as int,
                    pixel.1 as int,
                    (#[trigger] cells@[i]).0 as int,
                    cells@[i].1 as int,
                ) implies spec_listed(out@, cells@[i].0 as int, cells@[i].1 as int) by {
                if i < k {
                    let (cx, cy) = (cells@[i].0 as int, cells@[i].1 as int);
                    assert(spec_listed(before, cx, cy));
                    let j = choose|j: int|
                        0 <= j < before.len() && (#[trigger] before[j]).coords.0 == cx
                            && before[j].coords.1 == cy;
                    assert(out@[j] == before[j]);
                }
            }
        }
        k += 1;
    }
    proof {
        assert forall|cx: int, cy: int| #[trigger]
            spec_comparable(
                source,
                reach as int,
                mask,
                pixel.0 as int,
                pixel.1 as int,
                cx,
                cy,
            ) implies spec_listed(out@, cx, cy) by {
            assert(spec_holds(cells@, cx, cy));
            let i = choose|i: int|
                0 <= i < cells@.len() && (#[trigger] cells@[i]).0 == cx && cells@[i].1 == cy;
            assert(spec_comparable(
                source,
                reach as int,
                mask,
                pixel.0 as int,
                pixel.1 as int,
                cells@[i].0 as int,
                cells@[i].1 as int,
            ));
        }
    }
    out
}

/// For a frontier cell, the number of filled cells in the window around it;
/// for any other cell, nothing.
pub open spec fn spec_frontier_count(mask: &Mask, reach: int, x: int, y: int) -> Option<u32> {
    if spec_is_frontier(mask, x, y) {
        Some(spec_num_neighbours(mask, reach, x, y) as u32)
    } else {
        None
    }
}

/// For a frontier cell, the number of filled cells in the window around it;
/// for any other cell, nothing.
pub fn frontier_count(mask: &Mask, reach: u32, coords: (u32, u32)) -> (r: Option<u32>)
    requires
        mask.wf(),
        mask.has(coords.0 as int, coords.1 as int),
    ensures
        r == spec_frontier_count(mask, reach as int, coords.0 as int, coords.1 as int),
        r matches Some(n) ==> n == spec_num_neighbours(
            mask,
            reach as int,
            coords.0 as int,
            coords.1 as int,
        ),
{
    if !mask_on(mask, coords.0, coords.1) && is_edge_pixel(mask, coords.0, coords.1) {
        Some(pixel_num_neigbours(mask, reach, coords))
    } else {
        None
    }
}

/// A frontier cell with the most filled cells in the window around it;
/// `None` where the mask has no frontier. The cells are looked at in
/// parallel.
pub fn next_pixel(mask: &Mask, reach: u32) -> (r: Option<(u32, u32)>)
    requires
        mask.wf(),
    ensures
        r matches Some(c) ==> {
            &&& spec_is_frontier(mask, c.0 as int, c.1 as int)
            &&& forall|x: int, y: int| #[trigger]
                spec_is_frontier(mask, x, y) ==> spec_num_neighbours(mask, reach as int, x, y)
                    <= spec_num_neighbours(mask, reach as int, c.0 as int, c.1 as int)
        },
        r is None ==> forall|x: int, y: int| !#[trigger] spec_is_frontier(mask, x, y),
{
    let cells = grid_cells(mask.width(), mask.height());
    let count_of = |c: &(u32, u32)| -> (r: Option<u32>)
        requires
            mask.has(c.0 as int, c.1 as int),
        ensures
            r == spec_frontier_count(mask, reach as int, c.0 as int, c.1 as int),
            r matches Some(n) ==> n == spec_num_neighbours(
                mask,
                reach as int,
                c.0 as int,
                c.1 as int,
            ),
        { frontier_count(mask, reach, *c) };
    let counts = par_map(&cells, count_of);
    proof {
        assert forall|i: int| 0 <= i < cells@.len() implies (#[trigger] counts@[i]
            == spec_frontier_count(mask, reach as int, cells@[i].0 as int, cells@[i].1 as int) && (
        counts@[i] matches Some(n) ==> n == spec_num_neighbours(
            mask,
            reach as int,
            cells@[i].0 as int,
            cells@[i].1 as int,
        ))) by {
            assert(call_ensures(count_of, (&cells@[i],), counts@[i]));
        }
    }
    let n = cells.len();
    let mut best: Option<(u32, u32)> = None;
    let mut most: u32 = 0;
    let mut k: usize = 0;
    while k < n
        invariant
            n == cells@.len(),
            n == counts@.len(),
            k <= n,
            forall|i: int| 0 <= i < n ==> mask.has((#[trigger] cells@[i]).0 as int, cells@[i].1 as int),
            forall|i: int|
                0 <= i < n ==> (#[trigger] counts@[i] == spec_frontier_count(
                    mask,
                    reach as int,
                    cells@[i].0 as int,
                    cells@[i].1 as int,
                ) && (counts@[i] matches Some(n) ==> n == spec_num_neighbours(
                    mask,
                    reach as int,
                    cells@[i].0 as int,
                    cells@[i].1 as int,
                ))),
            best matches Some(c) ==> spec_is_frontier(mask, c.0 as int, c.1 as int) && most
                == spec_num_neighbours(mask, reach as int, c.0 as int, c.1 as int),
            forall|i: int|
                0 <= i < k && spec_is_frontier(
                    mask,
                    (#[trigger] cells@[i]).0 as int,
                    cells@[i].1 as int,
                ) ==> best is Some && spec_num_neighbours(
                    mask,
                    reach as int,
                    cells@[i].0 as int,
                    cells@[i].1 as int,
                ) <= most,
        decreases n - k,
    {
        if let Some(count) = counts[k] {
            if best.is_none() || count > most {
                best = Some(cells[k]);
                most = count;
            }
        }
        k += 1;
    }
    proof {
        assert forall|x: int, y: int| #[trigger] spec_is_frontier(mask, x, y) implies best is Some
            && spec_num_neighbours(mask, reach as int, x, y) <= most by {
            assert(spec_holds(cells@, x, y));
            let i = choose|i: int|
                0 <= i < cells@.len() && (#[trigger] cells@[i]).0 == x && cells@[i].1 == y;
            assert(spec_is_frontier(mask, cells@[i].0 as int, cells@[i].1 as int));
        }
    }
    best
}

/// A source pixel among the best for the buffer pixel `pixel`, chosen at
/// random among them. Fails where no source pixel can stand for `pixel`.
pub fn select_source_pixel(
    source: &Image,
    reach: u32,
    mask: &Mask,
    pixel: (u32, u32),
    buffer: &Image,
    rng: &mut XorShiftRng,
) -> (r: Result<(u32, u32), Error>)
    requires
        source.wf(),
        mask.wf(),
        buffer.wf(),
        buffer.spec_width() == mask.spec_width(),
        buffer.spec_height() == mask.spec_height(),
        mask.has(pixel.0 as int, pixel.1 as int),
    ensures
        r is Ok <==> exists|cx: int, cy: int| #[trigger]
            spec_comparable(source, reach as int, mask, pixel.0 as int, pixel.1 as int, cx, cy),
        r matches Ok(c) ==> spec_near_best(
            source,
            reach as int,
            mask,
            buffer,
            pixel.0 as int,
            pixel.1 as int,
            c.0 as int,
            c.1 as int,
        ),
        r matches Err(e) ==> e == Error::SynthesisError(SynthesisFault::EmptyCandidatePool),
{
    let candidates = candidate_errors(source, reach, mask, pixel, buffer);
    if candidates.len() == 0 {
        return Err(Error::SynthesisError(SynthesisFault::EmptyCandidatePool));
    }
    proof {
        assert forall|k: int| 0 <= k < candidates@.len() implies (#[trigger] candidates@[k]).error.wf() by {
            assert(candidates@[k].describes(
                source,
                reach as int,
                mask,
                buffer,
                pixel.0 as int,
                pixel.1 as int,
            ));
        }
    }
    let chosen = choose_among(&candidates, rng);
    proof {
        let px = pixel.0 as int;
        let py = pixel.1 as int;
        assert(candidates@[0].describes(source, reach as int, mask, buffer, px, py));
        let k = choose|k: int| 0 <= k < candidates@.len() && candidates@[k] == chosen;
        assert(candidates@[k].describes(source, reach as int, mask, buffer, px, py));
        assert forall|mx: int, my: int| #[trigger]
            spec_comparable(source, reach as int, mask, px, py, mx, my) implies fraction_within(
            spec_overlap_total(
                source,
                reach as int,
                mask,
                buffer,
                px,
                py,
                chosen.coords.0 as int,
                chosen.coords.1 as int,
            ),
            spec_overlap_count(
                source,
                reach as int,
                mask,
                px,
                py,
                chosen.coords.0 as int,
                chosen.coords.1 as int,
            ),
            spec_overlap_total(source, reach as int, mask, buffer, px, py, mx, my),
            spec_overlap_count(source, reach as int, mask, px, py, mx, my),
        ) by {
            assert(spec_listed(candidates@, mx, my));
            let m = choose|m: int|
                0 <= m < candidates@.len() && (#[trigger] candidates@[m]).coords.0 == mx
                    && candidates@[m].coords.1 == my;
            assert(candidates@[m].describes(source, reach as int, mask, buffer, px, py));
            assert(chosen.error.within_tolerance(&candidates@[m].error));
        }
    }
    Ok(chosen.coords)
}

/// Synthesize one single pixel: the colour of a source pixel among the best
/// for the buffer pixel `coords`.
pub fn synthesize_pixel(
    source: &Image,
    reach: u32,
    mask: &Mask,
    coords: (u32, u32),
    buffer: &Image,
    rng: &mut XorShiftRng,
) -> (r: Result<Rgb, Error>)
    requires
        source.wf(),
        mask.wf(),
        buffer.wf(),
        buffer.spec_width() == mask.spec_width(),
        buffer.spec_height() == mask.spec_height(),
        mask.has(coords.0 as int, coords.1 as int),
    ensures
        r is Ok <==> exists|cx: int, cy: int| #[trigger]
            spec_comparable(source, reach as int, mask, coords.0 as int, coords.1 as int, cx, cy),
        r matches Ok(p) ==> exists|cx: int, cy: int| #[trigger]
            spec_near_best(
                source,
                reach as int,
                mask,
                buffer,
                coords.0 as int,
                coords.1 as int,
                cx,
                cy,
            ) && source.at(cx, cy) == p,
        r matches Ok(p) ==> spec_appears_in(source, p),
        r matches Err(e) ==> e == Error::SynthesisError(SynthesisFault::EmptyCandidatePool),
{
    match select_source_pixel(source, reach, mask, coords, buffer, rng) {
        Ok(c) => {
            let p = source.get_pixel(c.0, c.1);
            proof {
                assert(spec_near_best(
                    source,
                    reach as int,
                    mask,
                    buffer,
                    coords.0 as int,
                    coords.1 as int,
                    c.0 as int,
                    c.1 as int,
                ) && source.at(c.0 as int, c.1 as int) == p);
                assert(source.has(c.0 as int, c.1 as int));
            }
            Ok(p)
        },
        Err(e) => Err(e),
    }
}

/// How far `a` is from `b`.
pub open spec fn spec_gap(a: int, b: int) -> int {
    if a <= b {
        b - a
    } else {
        a - b
    }
}

/// Between a filled cell and an unfilled cell of one row lies a frontier
/// cell.
pub proof fn lemma_row_frontier(mask: &Mask, y: int, a: int, b: int) -> (x: int)
    requires
        mask.has(a, y),
        mask.has(b, y),
        spec_mask_on(mask, a, y),
        !spec_mask_on(mask, b, y),
    ensures
        spec_is_frontier(mask, x, y),
    decreases spec_gap(a, b),
{
    if a < b {
        if !spec_mask_on(mask, a + 1, y) {
            a + 1
        } else {
            lemma_row_frontier(mask, y, a + 1, b)
        }
    } else {
        if !spec_mask_on(mask, a - 1, y) {
            a - 1
        } else {
            lemma_row_frontier(mask, y, a - 1, b)
        }
    }
}

/// Between a filled cell and an unfilled cell of one column lies a frontier
/// cell.
pub proof fn lemma_column_frontier(mask: &Mask, x: int, a: int, b: int) -> (y: int)
    requires
        mask.has(x, a),
        mask.has(x, b),
        spec_mask_on(mask, x, a),
        !spec_mask_on(mask, x, b),
    ensures
        spec_is_frontier(mask, x, y),
    decreases spec_gap(a, b),
{
    if a < b {
        if !spec_mask_on(mask, x, a + 1) {
            a + 1
        } else {
            lemma_column_frontier(mask, x, a + 1, b)
        }
    } else {
        if !spec_mask_on(mask, x, a - 1) {
            a - 1
        } else {
            lemma_column_frontier(mask, x, a - 1, b)
        }
    }
}

/// A mask with a filled cell and an unfilled cell has a frontier cell: the
/// filled region can always grow.
pub proof fn lemma_frontier_exists(mask: &Mask, fx: int, fy: int, ux: int, uy: int) -> (c: (
    int,
    int,
))
    requires
        mask.has(fx, fy),
        mask.has(ux, uy),
        spec_mask_on(mask, fx, fy),
        !spec_mask_on(mask, ux, uy),
    ensures
        spec_is_frontier(mask, c.0, c.1),
{
    if spec_mask_on(mask, ux, fy) {
        let y = lemma_column_frontier(mask, ux, fy, uy);
        (ux, y)
    } else {
        let x = lemma_row_frontier(mask, fy, fx, ux);
        (x, fy)
    }
}

/// With a window that reaches at least one cell, and a source of at least
/// three by three pixels, every cell next to a filled cell has a source pixel
/// that can stand for it.
pub proof fn lemma_edge_pixel_comparable(source: &Image, reach: int, mask: &Mask, px: int, py: int)
    requires
        reach >= 1,
        source.spec_width() >= 3,
        source.spec_height() >= 3,
        mask.has(px, py),
        spec_is_edge_pixel(mask, px, py),
    ensures
        spec_comparable(source, reach, mask, px, py, 1, 1),
{
    let o = spec_overlap(source, reach, mask, px, py, 1, 1);
    let f = |i: int, j: int|
        if mask.at(px - o.left + i, py - o.top + j) {
            1nat
        } else {
            0nat
        };
    if px != 0 && spec_mask_on(mask, px - 1, py) {
        assert(f(o.left - 1, o.top) == 1);
        lemma_grid_sum_term(f, o.width(), o.height(), o.left - 1, o.top);
    } else if px != mask.spec_width() - 1 && spec_mask_on(mask, px + 1, py) {
        assert(f(o.left + 1, o.top) == 1);
        lemma_grid_sum_term(f, o.width(), o.height(), o.left + 1, o.top);
    } else if py != 0 && spec_mask_on(mask, px, py - 1) {
        assert(f(o.left, o.top - 1) == 1);
        lemma_grid_sum_term(f, o.width(), o.height(), o.left, o.top - 1);
    } else {
        assert(f(o.left, o.top + 1) == 1);
        lemma_grid_sum_term(f, o.width(), o.height(), o.left, o.top + 1);
    }
}

/// With a window of a single cell, no source pixel can stand for a cell that
/// is not filled.
pub proof fn lemma_single_cell_window(
    source: &Image,
    mask: &Mask,
    px: int,
    py: int,
    cx: int,
    cy: int,
)
    requires
        mask.has(px, py),
        !spec_mask_on(mask, px, py),
        source.has(cx, cy),
    ensures
        !spec_comparable(source, 0, mask, px, py, cx, cy),
{
    let o = spec_overlap(source, 0, mask, px, py, cx, cy);
    let f = |i: int, j: int|
        if mask.at(px - o.left + i, py - o.top + j) {
            1nat
        } else {
            0nat
        };
    assert(o.left == 0 && o.top == 0 && o.right == 0 && o.bottom == 0);
    lemma_grid_sum_zero(f, 1, 1);
}

/// A mask in which no cell is left to fill is filled throughout, and a mask
/// with an unfilled cell has cells left to fill.
pub proof fn lemma_unfilled(mask: &Mask)
    ensures
        spec_unfilled(mask) == 0 <==> (forall|x: int, y: int|
            mask.has(x, y) ==> #[trigger] mask.at(x, y)),
{
    let f = |x: int, y: int|
        if mask.at(x, y) {
            0nat
        } else {
            1nat
        };
    let w = mask.spec_width() as int;
    let h = mask.spec_height() as int;
    if spec_unfilled(mask) == 0 {
        assert forall|x: int, y: int| mask.has(x, y) implies #[trigger] mask.at(x, y) by {
            lemma_grid_sum_term(f, w, h, x, y);
        }
    }
    if forall|x: int, y: int| mask.has(x, y) ==> #[trigger] mask.at(x, y) {
        assert forall|i: int, j: int| 0 <= i < w && 0 <= j < h implies #[trigger] f(i, j) == 0 by {
            assert(mask.has(i, j));
            assert(mask.at(i, j));
        }
        lemma_grid_sum_zero(f, w, h);
    }
}

/// Filling one more cell of a mask leaves one cell fewer to fill.
pub proof fn lemma_fill_one(before: &Mask, after: &Mask, x: int, y: int)
    requires
        before.has(x, y),
        !before.at(x, y),
        after.at(x, y),
        after.spec_width() == before.spec_width(),
        after.spec_height() == before.spec_height(),
        forall|i: int, j: int|
            before.has(i, j) && (i != x || j != y) ==> after.at(i, j) == before.at(i, j),
    ensures
        spec_unfilled(after) + 1 == spec_unfilled(before),
{
    let f = |x: int, y: int|
        if before.at(x, y) {
            0nat
        } else {
            1nat
        };
    let g = |x: int, y: int|
        if after.at(x, y) {
            0nat
        } else {
            1nat
        };
    assert forall|i: int, j: int|
        0 <= i < before.spec_width() && 0 <= j < before.spec_height() && (i != x || j
            != y) implies #[trigger] f(i, j) == g(i, j) by {
        assert(before.has(i, j));
    }
    lemma_grid_sum_one_change(
        f,
        g,
        before.spec_width() as int,
        before.spec_height() as int,
        x,
        y,
    );
}

/// Counts the cells of the mask that are not filled yet.
pub fn count_unfilled(mask: &Mask) -> (n: u32)
    requires
        mask.wf(),
    ensures
        n == spec_unfilled(mask),
{
    let width = mask.width();
    let height = mask.height();
    let ghost f = |x: int, y: int|
        if mask.at(x, y) {
            0nat
        } else {
            1nat
        };
    proof {
        mask.lemma_area();
        lemma_grid_sum_bound(f, width as int, height as int, 1);
    }
    let mut n: u32 = 0;
    let mut y: u32 = 0;
    while y < height
        invariant
            mask.wf(),
            width == mask.spec_width(),
            height == mask.spec_height(),
            y <= height,
            f == (|x: int, y: int|
                if mask.at(x, y) {
                    0nat
                } else {
                    1nat
                }),
            n == grid_sum(f, width as int, y as int),
            grid_sum(f, width as int, height as int) <= MAX_CELLS,
        decreases height - y,
    {
        proof {
            lemma_grid_sum_grows(f, width as int, y + 1, height as int);
        }
        let mut x: u32 = 0;
        while x < width
            invariant
                mask.wf(),
                width == mask.spec_width(),
                height == mask.spec_height(),
                y < height,
                x <= width,
                f == (|x: int, y: int|
                    if mask.at(x, y) {
                        0nat
                    } else {
                        1nat
                    }),
                n == grid_sum(f, width as int, y as int) + row_sum(f, x as int, y as int),
                grid_sum(f, width as int, y + 1) <= MAX_CELLS,
            decreases width - x,
        {
            proof {
                lemma_row_sum_grows(f, x + 1, width as int, y as int);
            }
            if !mask_on(mask, x, y) {
                n += 1;
            }
            x += 1;
        }
        y += 1;
    }
    n
}

/// Implements the pixel search: an image grown pixel by pixel from a seed.
pub struct PixelSearch {
    params: PixelSearchParams,
    source: Image,
    rng: XorShiftRng,
}

/// Why a source image and a set of parameters cannot work together, if they
/// cannot: the source or the output cannot hold a seed block, the seed block
/// does not lie inside the source, or the output has too many pixels.
pub open spec fn spec_refusal(source: &Image, params: &PixelSearchParams) -> Option<
    InvalidArgument,
> {
    if source.spec_width() < SEED_SIZE || source.spec_height() < SEED_SIZE {
        Some(InvalidArgument::SourceTooSmall)
    } else if params.seed_coords() matches Some(c) && (c.0 + SEED_SIZE > source.spec_width() || c.1
        + SEED_SIZE > source.spec_height()) {
        Some(InvalidArgument::SeedOutsideSource)
    } else if params.size().0 < SEED_SIZE || params.size().1 < SEED_SIZE {
        Some(InvalidArgument::OutputTooSmall)
    } else if params.size().0 * params.size().1 > MAX_CELLS {
        Some(InvalidArgument::OutputTooLarge)
    } else {
        None
    }
}

/// Where the seed block is put in an output of `size`: its top-left corner.
pub open spec fn spec_seed_corner(size: (u32, u32)) -> (int, int) {
    (size.0 / 2 - 1, size.1 / 2 - 1)
}

/// The seed block has been put: the mask marks the block at the centre and
/// nothing else, and the buffer holds there the block of the source whose
/// corner is `(sx, sy)`.
pub open spec fn spec_seeded(
    source: &Image,
    size: (u32, u32),
    sx: int,
    sy: int,
    mask: &Mask,
    buffer: &Image,
) -> bool {
    let (cx, cy) = spec_seed_corner(size);
    &&& mask.spec_width() == size.0 && mask.spec_height() == size.1
    &&& buffer.spec_width() == size.0 && buffer.spec_height() == size.1
    &&& 0 <= sx && sx + SEED_SIZE <= source.spec_width()
    &&& 0 <= sy && sy + SEED_SIZE <= source.spec_height()
    &&& forall|x: int, y: int|
        mask.has(x, y) ==> #[trigger] mask.at(x, y) == (cx <= x < cx + SEED_SIZE && cy <= y < cy
            + SEED_SIZE)
    &&& forall|dx: int, dy: int|
        0 <= dx < SEED_SIZE && 0 <= dy < SEED_SIZE ==> #[trigger] buffer.at(cx + dx, cy + dy)
            == source.at(sx + dx, sy + dy)
}

/// One step of growth, from the mask `m0` and the buffer `b0` to `m1` and
/// `b1`: the frontier cell `(x, y)`, which has as many filled cells around it
/// as any frontier cell has, is filled with the colour of the source pixel
/// `(cx, cy)`, which is among the best for it. Nothing else changes.
pub open spec fn spec_grows_at(
    source: &Image,
    reach: int,
    m0: &Mask,
    b0: &Image,
    m1: &Mask,
    b1: &Image,
    x: int,
    y: int,
    cx: int,
    cy: int,
) -> bool {
    &&& spec_is_frontier(m0, x, y)
    &&& forall|a: int, b: int| #[trigger]
        spec_is_frontier(m0, a, b) ==> spec_num_neighbours(m0, reach, a, b) <= spec_num_neighbours(
            m0,
            reach,
            x,
            y,
        )
    &&& spec_near_best(source, reach, m0, b0, x, y, cx, cy)
    &&& m1.spec_width() == m0.spec_width() && m1.spec_height() == m0.spec_height()
    &&& b1.spec_width() == b0.spec_width() && b1.spec_height() == b0.spec_height()
    &&& forall|a: int, b: int|
        m0.has(a, b) ==> #[trigger] m1.at(a, b) == (if a == x && b == y {
            true
        } else {
            m0.at(a, b)
        })
    &&& forall|a: int, b: int|
        b0.has(a, b) ==> #[trigger] b1.at(a, b) == (if a == x && b == y {
            source.at(cx, cy)
        } else {
            b0.at(a, b)
        })
}

/// One step of growth leads from the mask `m0` and the buffer `b0` to `m1`
/// and `b1`.
pub open spec fn spec_grows(
    source: &Image,
    reach: int,
    m0: &Mask,
    b0: &Image,
    m1: &Mask,
    b1: &Image,
) -> bool {
    exists|x: int, y: int, cx: int, cy: int| #[trigger]
        spec_grows_at(source, reach, m0, b0, m1, b1, x, y, cx, cy)
}

/// One step of growth leads to state `k` of `masks` and `buffers` from the
/// state before it.
pub open spec fn spec_grows_to(
    source: &Image,
    reach: int,
    masks: Seq<Mask>,
    buffers: Seq<Image>,
    k: int,
) -> bool {
    spec_grows(source, reach, &masks[k - 1], &buffers[k - 1], &masks[k], &buffers[k])
}

/// `masks` and `buffers` are the states of a run of the pixel search, in
/// order: the first is the seeded state, with the seed taken from
/// `seed_coords` where that is given, and each later one comes from the one
/// before it by one step of growth.
pub open spec fn spec_growth(
    source: &Image,
    params: &PixelSearchParams,
    masks: Seq<Mask>,
    buffers: Seq<Image>,
) -> bool {
    &&& masks.len() == buffers.len()
    &&& masks.len() >= 1
    &&& exists|sx: int, sy: int| #[trigger]
        spec_seeded(source, params.size(), sx, sy, &masks[0], &buffers[0]) && (
        params.seed_coords() matches Some(s) ==> sx == s.0 && sy == s.1)
    &&& forall|k: int|
        0 < k < masks.len() ==> #[trigger] spec_grows_to(source, params.reach(), masks, buffers, k)
}

/// `img` is what a run of the pixel search ends with: the buffer of the last
/// state of a run in which no cell is left to fill.
pub open spec fn spec_synthesized(
    source: &Image,
    params: &PixelSearchParams,
    masks: Seq<Mask>,
    buffers: Seq<Image>,
    img: &Image,
) -> bool {
    &&& spec_growth(source, params, masks, buffers)
    &&& spec_unfilled(&masks.last()) == 0
    &&& buffers.last() == *img
}

impl PixelSearch {
    /// The parameters of the search.
    pub closed spec fn params(&self) -> PixelSearchParams {
        self.params
    }

    /// The image that the pixels are taken from.
    pub closed spec fn source(&self) -> Image {
        self.source
    }

    /// The invariant: source and parameters are well-formed and work
    /// together.
    pub open spec fn wf(&self) -> bool {
        &&& self.params().wf()
        &&& self.source().wf()
        &&& spec_refusal(&self.source(), &self.params()) is None
    }

    /// Create a new `PixelSearch`, whose random choices follow `rng`.
    pub fn with_rng(source: Image, params: PixelSearchParams, rng: XorShiftRng) -> (r: Result<
        PixelSearch,
        Error,
    >)
        requires
            source.wf(),
            params.wf(),
        ensures
            r is Ok <==> spec_refusal(&source, &params) is None,
            r matches Ok(s) ==> s.wf() && s.source() == source && s.params() == params,
            r matches Err(e) ==> spec_refusal(&source, &params) == Some(e->InvalidArguments_0) && e
                is InvalidArguments,
    {
        if source.width() < SEED_SIZE || source.height() < SEED_SIZE {
            return Err(Error::InvalidArguments(InvalidArgument::SourceTooSmall));
        }
        if let Some(coords) = params.seed_coords {
            if coords.0 > source.width() - SEED_SIZE || coords.1 > source.height() - SEED_SIZE {
                return Err(Error::InvalidArguments(InvalidArgument::SeedOutsideSource));
            }
        }
        if params.size.0 < SEED_SIZE || params.size.1 < SEED_SIZE {
            return Err(Error::InvalidArguments(InvalidArgument::OutputTooSmall));
        }
        if area_of(params.size.0, params.size.1) > MAX_CELLS as u64 {
            return Err(Error::InvalidArguments(InvalidArgument::OutputTooLarge));
        }
        Ok(PixelSearch { params, source, rng })
    }

    /// Create a new `PixelSearch`, whose random choices follow a generator
    /// with a random seed.
    pub fn new(source: Image, params: PixelSearchParams) -> (r: Result<PixelSearch, Error>)
        requires
            source.wf(),
            params.wf(),
        ensures
            r is Ok <==> spec_refusal(&source, &params) is None,
            r matches Ok(s) ==> s.wf() && s.source() == source && s.params() == params,
            r matches Err(e) ==> spec_refusal(&source, &params) == Some(e->InvalidArguments_0) && e
                is InvalidArguments,
    {
        PixelSearch::with_rng(source, params, new_rng_random_seed())
    }

    /// Synthesize an image by pixel search.
    ///
    /// The image is what a run of growth ends with: the seed block is put at
    /// the centre, and then, until no cell is left, a frontier cell with the
    /// most filled cells around it is filled with the colour of a source pixel
    /// that is among the best for it. So the image has the size asked for, each
    /// of its pixels has the colour of some pixel of the source, and where the
    /// seed's place in the source was given, the seed block stands unchanged
    /// around the centre. The run fails only where the window is a single
    /// pixel and the output is more than the seed block: nothing can then be
    /// compared.
    pub fn synthesize(&mut self) -> (r: Result<Image, Error>)
        requires
            old(self).wf(),
        ensures
            final(self).wf(),
            final(self).source() == old(self).source(),
            final(self).params() == old(self).params(),
            r is Ok <==> (old(self).params().reach() >= 1 || old(self).params().size() == (
                SEED_SIZE,
                SEED_SIZE,
            )),
            r matches Ok(img) ==> {
                &&& img.wf()
                &&& img.spec_width() == old(self).params().size().0
                &&& img.spec_height() == old(self).params().size().1
                &&& forall|x: int, y: int|
                    img.has(x, y) ==> spec_appears_in(&old(self).source(), #[trigger] img.at(x, y))
                &&& old(self).params().seed_coords() matches Some(s) ==> forall|dx: int, dy: int|
                    0 <= dx < SEED_SIZE && 0 <= dy < SEED_SIZE ==> #[trigger] img.at(
                        spec_seed_corner(old(self).params().size()).0 + dx,
                        spec_seed_corner(old(self).params().size()).1 + dy,
                    ) == old(self).source().at(s.0 + dx, s.1 + dy)
                &&& exists|masks: Seq<Mask>, buffers: Seq<Image>| #[trigger]
                    spec_synthesized(
                        &old(self).source(),
                        &old(self).params(),
                        masks,
                        buffers,
                        &img,
                    )
            },
            r matches Err(e) ==> e == Error::SynthesisError(SynthesisFault::EmptyCandidatePool),
    {
        let (w, h) = self.params.size;
        let reach: u32 = (self.params.window_size - 1) / 2;
        let mut buffer: Image = Grid::filled(w, h, Rgb { r: 0, g: 0, b: 0 }).unwrap();
        let mut mask: Mask = Grid::filled(w, h, false).unwrap();
        let cx: u32 = w / 2 - 1;
        let cy: u32 = h / 2 - 1;

        // Copy the initial seed to the center of the buffer and grow an image from there
        let (sx, sy) = match self.params.seed_coords {
            Some(c) => c,
            None => (
                below(&mut self.rng, self.source.width() - SEED_SIZE + 1),
                below(&mut self.rng, self.source.height() - SEED_SIZE + 1),
            ),
        };
        mask.fill_rect(&Rect::new(cx, cy, SEED_SIZE, SEED_SIZE), true);
        buffer.blit_rect(&Rect::new(sx, sy, SEED_SIZE, SEED_SIZE), (cx, cy), &self.source);

        let mut n_pixels = count_unfilled(&mask);
        let ghost mut masks: Seq<Mask> = seq![mask];
        let ghost mut buffers: Seq<Image> = seq![buffer];
        proof {
            assert(spec_seeded(&self.source, (w, h), sx as int, sy as int, &masks[0], &buffers[0]));
            lemma_unfilled(&mask);
            if w == SEED_SIZE && h == SEED_SIZE {
                assert forall|x: int, y: int| mask.has(x, y) implies #[trigger] mask.at(x, y) by {}
            } else {
                assert(mask.has(0, 0));
                assert(!mask.at(0, 0));
            }
            assert forall|x: int, y: int| mask.has(x, y) && mask.at(x, y) implies spec_appears_in(
                &self.source,
                #[trigger] buffer.at(x, y),
            ) by {
                assert(self.source.has(sx + (x - cx), sy + (y - cy)));
            }
        }
        while n_pixels > 0
            invariant
                self.wf(),
                self.source() == old(self).source(),
                self.params() == old(self).params(),
                (w, h) == self.params().size(),
                reach == self.params().reach(),
                cx == w / 2 - 1,
                cy == h / 2 - 1,
                mask.wf(),
                buffer.wf(),
                mask.spec_width() == w && mask.spec_height() == h,
                buffer.spec_width() == w && buffer.spec_height() == h,
                n_pixels == spec_unfilled(&mask),
                spec_growth(&self.source(), &self.params(), masks, buffers),
                masks.last() == mask,
                buffers.last() == buffer,
                reach >= 1 || (w == SEED_SIZE && h == SEED_SIZE) || n_pixels > 0,
                (w == SEED_SIZE && h == SEED_SIZE) ==> n_pixels == 0,
                forall|x: int, y: int|
                    mask.has(x, y) && mask.at(x, y) ==> spec_appears_in(
                        &self.source(),
                        #[trigger] buffer.at(x, y),
                    ),
                forall|dx: int, dy: int|
                    0 <= dx < SEED_SIZE && 0 <= dy < SEED_SIZE ==> #[trigger] mask.at(
                        cx + dx,
                        cy + dy,
                    ),
                forall|dx: int, dy: int|
                    0 <= dx < SEED_SIZE && 0 <= dy < SEED_SIZE ==> #[trigger] buffer.at(
                        cx + dx,
                        cy + dy,
                    ) == self.source().at(sx + dx, sy + dy),
            decreases n_pixels,
        {
            //// Find the next pixel to synthesize
            let found = next_pixel(&mask, reach);
            proof {
                lemma_unfilled(&mask);
                let (ux, uy) = choose|ux: int, uy: int| mask.has(ux, uy) && !mask.at(ux, uy);
                assert(mask.at(cx + 0, cy + 0));
                let c = lemma_frontier_exists(&mask, cx as int, cy as int, ux, uy);
            }
            let next_pixel = found.unwrap();

            //// Synthesize the pixel and mark it as done
            proof {
                if reach >= 1 {
                    lemma_edge_pixel_comparable(
                        &self.source,
                        reach as int,
                        &mask,
                        next_pixel.0 as int,
                        next_pixel.1 as int,
                    );
                } else {
                    assert forall|qx: int, qy: int|
                        !#[trigger] spec_comparable(
                            &self.source,
                            reach as int,
                            &mask,
                            next_pixel.0 as int,
                            next_pixel.1 as int,
                            qx,
                            qy,
                        ) by {
                        if self.source.has(qx, qy) {
                            lemma_single_cell_window(
                                &self.source,
                                &mask,
                                next_pixel.0 as int,
                                next_pixel.1 as int,
                                qx,
                                qy,
                            );
                        }
                    }
                }
            }
            let pixel = match synthesize_pixel(
                &self.source,
                reach,
                &mask,
                next_pixel,
                &buffer,
                &mut self.rng,
            ) {
                Ok(pixel) => pixel,
                Err(e) => {
                    return Err(e);
                },
            };
            let ghost mask_before = mask;
            let ghost buffer_before = buffer;
            buffer.put_pixel(next_pixel.0, next_pixel.1, pixel);
            mask.put_pixel(next_pixel.0, next_pixel.1, true);
            proof {
                lemma_fill_one(&mask_before, &mask, next_pixel.0 as int, next_pixel.1 as int);
                let (cx, cy) = choose|cx: int, cy: int| #[trigger]
                    spec_near_best(
                        &self.source,
                        reach as int,
                        &mask_before,
                        &buffer_before,
                        next_pixel.0 as int,
                        next_pixel.1 as int,
                        cx,
                        cy,
                    ) && self.source.at(cx, cy) == pixel;
                assert(spec_grows_at(
                    &self.source,
                    reach as int,
                    &mask_before,
                    &buffer_before,
                    &mask,
                    &buffer,
                    next_pixel.0 as int,
                    next_pixel.1 as int,
                    cx,
                    cy,
                ));
                let ghost old_masks = masks;
                let ghost old_buffers = buffers;
                masks = masks.push(mask);
                buffers = buffers.push(buffer);
                assert(masks[0] == old_masks[0] && buffers[0] == old_buffers[0]);
                assert forall|k: int| 0 < k < masks.len() implies #[trigger] spec_grows_to(
                    &self.source(),
                    self.params().reach(),
                    masks,
                    buffers,
                    k,
                ) by {
                    if k < old_masks.len() {
                        assert(spec_grows_to(
                            &self.source(),
                            self.params().reach(),
                            old_masks,
                            old_buffers,
                            k,
                        ));
                        assert(masks[k] == old_masks[k] && masks[k - 1] == old_masks[k - 1]);
                        assert(buffers[k] == old_buffers[k] && buffers[k - 1] == old_buffers[k
                            - 1]);
                    }
                }
            }
            n_pixels -= 1;
        }
        proof {
            lemma_unfilled(&mask);
            assert(spec_synthesized(&old(self).source(), &old(self).params(), masks, buffers, &buffer));
        }
        Ok(buffer)
    }
}

} // verus!

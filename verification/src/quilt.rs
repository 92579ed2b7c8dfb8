//! Texture synthesis by quilting: the output is laid out as a grid of square
//! patches of the source that overlap their neighbours, and each new patch is
//! cut along the seam where it differs least from what is already there.

use vstd::prelude::*;
use rand::XorShiftRng;
use crate::distance::{Metric, L1, L2, lemma_l1_metric_symmetric, lemma_l2_metric_symmetric, symmetric};
use crate::errors::{Error, InvalidArgument, SynthesisFault};
use crate::grid::{Grid, Patch, Rect, MAX_CELLS};
use crate::mean::{Candidate, MeanError, choose_among, spec_listed};
use crate::parallel::{par_map, spec_holds};
use crate::pixel::{Image, Rgb};
use crate::random::{below, new_rng_random_seed};
use crate::search::spec_appears_in;
use crate::seam::{
    ErrorSurface,
    min_horizontal_seam,
    min_vertical_seam,
    lemma_same_seam,
    spec_band,
    spec_lanes,
    spec_seam,
};
use crate::sum::{
    grid_sum,
    row_sum,
    lemma_grid_sum_bound,
    lemma_grid_sum_equal,
    lemma_grid_sum_grows,
    lemma_row_sum_grows,
};

verus! {

/// How often random sampling may pass over the source before it gives up.
pub const MAX_SAMPLING_PASSES: u32 = 1000;

/// The part of a new patch that lies over what the buffer already holds.
#[derive(Clone, Copy, Debug, PartialEq, Eq, Structural)]
pub enum OverlapArea {
    /// The patch shares only its top edge with the filled buffer.
    Top,
    /// The patch shares only its left edge with the filled buffer.
    Left,
    /// The patch shares both its top and its left edge.
    TopLeft,
}

/// The chance with which a candidate is looked at, as a fraction.
#[derive(Clone, Copy, Debug)]
pub struct Chance {
    pub numerator: u32,
    pub denominator: u32,
}

impl Chance {
    /// The fraction lies in `(0, 1]`.
    pub open spec fn valid(&self) -> bool {
        0 < self.numerator <= self.denominator
    }

    /// The chance `numerator / denominator`.
    pub fn new(numerator: u32, denominator: u32) -> (c: Chance)
        ensures
            c.numerator == numerator,
            c.denominator == denominator,
    {
        Chance { numerator, denominator }
    }

    /// Decides whether the fraction lies in `(0, 1]`.
    pub fn is_valid(&self) -> (b: bool)
        ensures
            b == self.valid(),
    {
        0 < self.numerator && self.numerator <= self.denominator
    }
}

/// Why a set of quilting parameters is refused, if it is.
pub open spec fn spec_params_refusal(
    size: (u32, u32),
    patch_size: u32,
    overlap: u32,
    selection_chance: Option<Chance>,
) -> Option<InvalidArgument> {
    if size.0 == 0 || size.1 == 0 {
        Some(InvalidArgument::EmptyOutput)
    } else if overlap == 0 {
        Some(InvalidArgument::ZeroOverlap)
    } else if patch_size < 2 * overlap {
        Some(InvalidArgument::PatchSmallerThanTwiceOverlap)
    } else if selection_chance matches Some(c) && !c.valid() {
        Some(InvalidArgument::SelectionChanceOutOfRange)
    } else {
        None
    }
}

/// Parameters of the quilting.
///
/// * `size`: size of the synthesised image
/// * `patch_size`: side of the patches
/// * `overlap`: how far neighbouring patches overlap
/// * `seed_coords`: top-left corner, in the source, of the first patch;
///   chosen at random where it is `None`
/// * `selection_chance`: the chance with which a candidate patch is looked
///   at; every candidate is looked at where it is `None`
/// * `distance`: the metric that compares two colours
pub struct QuilterParams<M> {
    size: (u32, u32),
    patch_size: u32,
    overlap: u32,
    seed_coords: Option<(u32, u32)>,
    selection_chance: Option<Chance>,
    distance: M,
}

impl<M: Metric> QuilterParams<M> {
    /// Size of the synthesised image, as `(width, height)`.
    pub closed spec fn size(&self) -> (u32, u32) {
        self.size
    }

    /// Side of the patches.
    pub closed spec fn patch_size(&self) -> u32 {
        self.patch_size
    }

    /// How far neighbouring patches overlap.
    pub closed spec fn overlap(&self) -> u32 {
        self.overlap
    }

    /// Top-left corner of the first patch in the source, if it is fixed.
    pub closed spec fn seed_coords(&self) -> Option<(u32, u32)> {
        self.seed_coords
    }

    /// The chance with which a candidate is looked at, if not every one is.
    pub closed spec fn selection_chance(&self) -> Option<Chance> {
        self.selection_chance
    }

    /// The metric that compares two colours.
    pub closed spec fn distance(&self) -> M {
        self.distance
    }

    /// The invariant: the parameters are such as `new` accepts.
    pub open spec fn wf(&self) -> bool {
        spec_params_refusal(
            self.size(),
            self.patch_size(),
            self.overlap(),
            self.selection_chance(),
        ) is None
    }

    /// How far the corner of a patch lies from that of the patch before it.
    pub open spec fn step(&self) -> int {
        self.patch_size() - self.overlap()
    }

    /// The parameters, where they are sound: an output with at least one
    /// column and one row, an overlap of at least one pixel, patches at least
    /// twice as wide as the overlap, and a selection chance, if there is one,
    /// in `(0, 1]`. Anything else is refused, for the first of these reasons
    /// that applies.
    pub fn new(
        size: (u32, u32),
        patch_size: u32,
        overlap: u32,
        seed_coords: Option<(u32, u32)>,
        selection_chance: Option<Chance>,
        distance: M,
    ) -> (r: Result<QuilterParams<M>, Error>)
        ensures
            r is Ok <==> (size.0 > 0 && size.1 > 0 && overlap > 0 && patch_size >= 2 * overlap && (
            selection_chance matches Some(c) ==> c.valid())),
            r matches Ok(p) ==> {
                &&& p.wf()
                &&& p.size() == size
                &&& p.patch_size() == patch_size
                &&& p.overlap() == overlap
                &&& p.seed_coords() == seed_coords
                &&& p.selection_chance() == selection_chance
                &&& p.distance() == distance
            },
            r matches Err(e) ==> e is InvalidArguments && spec_params_refusal(
                size,
                patch_size,
                overlap,
                selection_chance,
            ) == Some(e->InvalidArguments_0),
    {
        if size.0 == 0 || size.1 == 0 {
            return Err(Error::InvalidArguments(InvalidArgument::EmptyOutput));
        }
        if overlap == 0 {
            return Err(Error::InvalidArguments(InvalidArgument::ZeroOverlap));
        }
        if (patch_size as u64) < 2 * (overlap as u64) {
            return Err(Error::InvalidArguments(InvalidArgument::PatchSmallerThanTwiceOverlap));
        }
        if let Some(c) = selection_chance {
            if !c.is_valid() {
                return Err(Error::InvalidArguments(InvalidArgument::SelectionChanceOutOfRange));
            }
        }
        Ok(QuilterParams { size, patch_size, overlap, seed_coords, selection_chance, distance })
    }
}

/// The overlap area of the patch in column `gx`, row `gy` of the grid of
/// patches: a patch of the first row has a neighbour to its left only, one of
/// the first column a neighbour above it only, any other has both.
pub open spec fn spec_overlap_area(gx: int, gy: int) -> OverlapArea {
    if gy == 0 {
        OverlapArea::Left
    } else if gx == 0 {
        OverlapArea::Top
    } else {
        OverlapArea::TopLeft
    }
}

/// The overlap area of the patch in column `gx`, row `gy` of the grid of
/// patches.
pub fn overlap_area(gx: u32, gy: u32) -> (area: OverlapArea)
    ensures
        area == spec_overlap_area(gx as int, gy as int),
{
    if gy == 0 {
        OverlapArea::Left
    } else if gx == 0 {
        OverlapArea::Top
    } else {
        OverlapArea::TopLeft
    }
}

/// Whether the cell `(x, y)` of a patch lies in the overlap area: in the top
/// band of `overlap` rows, in the left band of `overlap` columns, or in
/// either.
pub open spec fn spec_in_overlap(area: OverlapArea, overlap: int, x: int, y: int) -> bool {
    match area {
        OverlapArea::Top => y < overlap,
        OverlapArea::Left => x < overlap,
        OverlapArea::TopLeft => y < overlap || x < overlap,
    }
}

/// Where a patch is to be put: the corner `pos` in the buffer, the side of
/// the patch, the overlap, and the area in which the patch lies over what the
/// buffer already holds.
#[derive(Clone, Copy, Debug)]
pub struct Placement {
    pub pos: (u32, u32),
    pub patch_size: u32,
    pub overlap: u32,
    pub area: OverlapArea,
}

impl Placement {
    /// The placement makes sense for `source` and `buffer`: the overlap is at
    /// least one pixel and at most half the patch, the patch fits into the
    /// source, and the place lies inside the buffer.
    pub open spec fn fits(&self, source: &Image, buffer: &Image) -> bool {
        &&& source.wf()
        &&& buffer.wf()
        &&& 0 < self.overlap
        &&& 2 * self.overlap <= self.patch_size
        &&& self.patch_size <= source.spec_width()
        &&& self.patch_size <= source.spec_height()
        &&& self.pos.0 + self.patch_size <= buffer.spec_width()
        &&& self.pos.1 + self.patch_size <= buffer.spec_height()
    }

    /// A patch with its corner at `(ax, ay)` lies inside `source`.
    pub open spec fn anchor(&self, source: &Image, ax: int, ay: int) -> bool {
        &&& 0 <= ax
        &&& 0 <= ay
        &&& ax + self.patch_size <= source.spec_width()
        &&& ay + self.patch_size <= source.spec_height()
    }
}

/// The sum of the distances between the pixels of the rectangle of `size` at
/// `p` in `a` and those of the rectangle of the same size at `q` in `b`.
pub open spec fn spec_patch_rect_error<M: Metric>(
    metric: &M,
    a: &Image,
    b: &Image,
    p: (int, int),
    q: (int, int),
    size: (int, int),
) -> nat {
    grid_sum(
        |i: int, j: int| metric.spec_distance(a.at(p.0 + i, p.1 + j), b.at(q.0 + i, q.1 + j)),
        size.0,
        size.1,
    )
}

/// The error of the patch of `source` at `(ax, ay)` against what `buffer`
/// holds at the placement: the sum of the distances over the overlap area.
/// Where the patch overlaps at the top and at the left, the corner they share
/// counts once, with the top band.
pub open spec fn spec_patch_error<M: Metric>(
    metric: &M,
    source: &Image,
    buffer: &Image,
    place: Placement,
    ax: int,
    ay: int,
) -> nat {
    let (px, py) = (place.pos.0 as int, place.pos.1 as int);
    let size = place.patch_size as int;
    let overlap = place.overlap as int;
    match place.area {
        OverlapArea::Top => spec_patch_rect_error(
            metric,
            source,
            buffer,
            (ax, ay),
            (px, py),
            (size, overlap),
        ),
        OverlapArea::Left => spec_patch_rect_error(
            metric,
            source,
            buffer,
            (ax, ay),
            (px, py),
            (overlap, size),
        ),
        OverlapArea::TopLeft => spec_patch_rect_error(
            metric,
            source,
            buffer,
            (ax, ay),
            (px, py),
            (size, overlap),
        ) + spec_patch_rect_error(
            metric,
            source,
            buffer,
            (ax, ay + overlap),
            (px, py + overlap),
            (overlap, size - overlap),
        ),
    }
}

/// The cell `(x, y)` of the error surface of the patch of `source` at
/// `(ax, ay)`: inside the overlap area, the distance between the patch's
/// pixel and the buffer's; outside it, zero.
pub open spec fn spec_surface_cell<M: Metric>(
    metric: &M,
    source: &Image,
    buffer: &Image,
    place: Placement,
    ax: int,
    ay: int,
    x: int,
    y: int,
) -> nat {
    if spec_in_overlap(place.area, place.overlap as int, x, y) {
        metric.spec_distance(source.at(ax + x, ay + y), buffer.at(place.pos.0 + x, place.pos.1 + y))
    } else {
        0
    }
}

/// Swapping the two images, and their places with them, leaves the error of
/// a rectangle unchanged, if the metric is symmetric.
pub proof fn lemma_patch_rect_error_symmetric<M: Metric>(
    metric: &M,
    a: &Image,
    b: &Image,
    p: (int, int),
    q: (int, int),
    size: (int, int),
)
    requires
        symmetric(metric),
    ensures
        spec_patch_rect_error(metric, a, b, p, q, size) == spec_patch_rect_error(
            metric,
            b,
            a,
            q,
            p,
            size,
        ),
{
    let f = |i: int, j: int| metric.spec_distance(a.at(p.0 + i, p.1 + j), b.at(q.0 + i, q.1 + j));
    let g = |i: int, j: int| metric.spec_distance(b.at(q.0 + i, q.1 + j), a.at(p.0 + i, p.1 + j));
    lemma_grid_sum_equal(f, g, size.0, size.1);
}

/// With the Manhattan metric, swapping the two images, and their places with
/// them, leaves the error of a rectangle unchanged.
pub proof fn lemma_patch_rect_error_symmetric_l1(
    a: &Image,
    b: &Image,
    p: (int, int),
    q: (int, int),
    size: (int, int),
)
    ensures
        spec_patch_rect_error(&L1, a, b, p, q, size) == spec_patch_rect_error(
            &L1,
            b,
            a,
            q,
            p,
            size,
        ),
{
    lemma_l1_metric_symmetric();
    lemma_patch_rect_error_symmetric(&L1, a, b, p, q, size);
}

/// With the Euclidean metric, swapping the two images, and their places with
/// them, leaves the error of a rectangle unchanged.
pub proof fn lemma_patch_rect_error_symmetric_l2(
    a: &Image,
    b: &Image,
    p: (int, int),
    q: (int, int),
    size: (int, int),
)
    ensures
        spec_patch_rect_error(&L2, a, b, p, q, size) == spec_patch_rect_error(
            &L2,
            b,
            a,
            q,
            p,
            size,
        ),
{
    lemma_l2_metric_symmetric();
    lemma_patch_rect_error_symmetric(&L2, a, b, p, q, size);
}

/// The sum of the distances between the pixels of the rectangle of `size` at
/// `p` in `a` and those of the rectangle of the same size at `q` in `b`.
pub fn patch_rect_error<M: Metric>(
    metric: &M,
    a: &Image,
    b: &Image,
    p: (u32, u32),
    q: (u32, u32),
    size: (u32, u32),
) -> (e: u64)
    requires
        a.wf(),
        b.wf(),
        p.0 + size.0 <= a.spec_width(),
        p.1 + size.1 <= a.spec_height(),
        q.0 + size.0 <= b.spec_width(),
        q.1 + size.1 <= b.spec_height(),
    ensures
        e == spec_patch_rect_error(
            metric,
            a,
            b,
            (p.0 as int, p.1 as int),
            (q.0 as int, q.1 as int),
            (size.0 as int, size.1 as int),
        ),
        e <= size.0 * size.1 * 0xffff_ffff,
{
    let (w, h) = size;
    let ghost f = |i: int, j: int|
        metric.spec_distance(
            a.at(p.0 as int + i, p.1 as int + j),
            b.at(q.0 as int + i, q.1 as int + j),
        );
    proof {
        a.lemma_area();
        assert forall|i: int, j: int| 0 <= i < w && 0 <= j < h implies #[trigger] f(i, j)
            <= 0xffff_ffff by {
            metric.lemma_distance_bound(
                a.at(p.0 as int + i, p.1 as int + j),
                b.at(q.0 as int + i, q.1 as int + j),
            );
        }
        lemma_grid_sum_bound(f, w as int, h as int, 0xffff_ffff);
        assert(w * h <= a.spec_width() * a.spec_height()) by (nonlinear_arith)
            requires
                0 <= w <= a.spec_width(),
                0 <= h <= a.spec_height(),
        ;
        assert(w * h * 0xffff_ffff <= 0xffff_ffff * 0xffff_ffff) by (nonlinear_arith)
            requires
                0 <= w * h <= 0xffff_ffff,
        ;
    }
    let mut total: u64 = 0;
    let mut j: u32 = 0;
    while j < h
        invariant
            a.wf(),
            b.wf(),
            p.0 + w <= a.spec_width(),
            p.1 + h <= a.spec_height(),
            q.0 + w <= b.spec_width(),
            q.1 + h <= b.spec_height(),
            j <= h,
            f == (|i: int, j: int|
                metric.spec_distance(
                    a.at(p.0 as int + i, p.1 as int + j),
                    b.at(q.0 as int + i, q.1 as int + j),
                )),
            total == grid_sum(f, w as int, j as int),
            grid_sum(f, w as int, h as int) <= 0xffff_ffff * 0xffff_ffff,
        decreases h - j,
    {
        proof {
            lemma_grid_sum_grows(f, w as int, j + 1, h as int);
        }
        let mut i: u32 = 0;
        while i < w
            invariant
                a.wf(),
                b.wf(),
                p.0 + w <= a.spec_width(),
                p.1 + h <= a.spec_height(),
                q.0 + w <= b.spec_width(),
                q.1 + h <= b.spec_height(),
                j < h,
                i <= w,
                f == (|i: int, j: int|
                    metric.spec_distance(
                        a.at(p.0 as int + i, p.1 as int + j),
                        b.at(q.0 as int + i, q.1 as int + j),
                    )),
                total == grid_sum(f, w as int, j as int) + row_sum(f, i as int, j as int),
                grid_sum(f, w as int, j + 1) <= 0xffff_ffff * 0xffff_ffff,
            decreases w - i,
        {
            proof {
                lemma_row_sum_grows(f, i + 1, w as int, j as int);
            }
            let pa = a.get_pixel(p.0 + i, p.1 + j);
            let pb = b.get_pixel(q.0 + i, q.1 + j);
            total = total + metric.distance(&pa, &pb) as u64;
            i += 1;
        }
        j += 1;
    }
    total
}

/// The error of the patch of `source` at `anchor` against what `buffer`
/// holds at the placement: the sum of the distances over the overlap area.
pub fn patch_error<M: Metric>(
    metric: &M,
    source: &Image,
    buffer: &Image,
    place: Placement,
    anchor: (u32, u32),
) -> (e: u64)
    requires
        place.fits(source, buffer),
        place.anchor(source, anchor.0 as int, anchor.1 as int),
    ensures
        e == spec_patch_error(metric, source, buffer, place, anchor.0 as int, anchor.1 as int),
{
    let size = place.patch_size;
    let overlap = place.overlap;
    proof {
        source.lemma_area();
        assert(size * size <= source.spec_width() * source.spec_height()) by (nonlinear_arith)
            requires
                0 <= size <= source.spec_width(),
                0 <= size <= source.spec_height(),
        ;
        assert(2 * (size * overlap) <= size * size) by (nonlinear_arith)
            requires
                2 * overlap <= size,
                0 <= size,
        ;
        assert(2 * (overlap * (size - overlap)) <= size * size) by (nonlinear_arith)
            requires
                2 * overlap <= size,
                0 <= overlap,
        ;
        assert(size * overlap * 0xffff_ffff + overlap * (size - overlap) * 0xffff_ffff
            <= 0xffff_ffff * 0xffff_ffff) by (nonlinear_arith)
            requires
                2 * (size * overlap) <= size * size,
                2 * (overlap * (size - overlap)) <= size * size,
                size * size <= 0xffff_ffff,
        ;
        assert(overlap * size == size * overlap) by (nonlinear_arith);
    }
    match place.area {
        OverlapArea::Top => patch_rect_error(
            metric,
            source,
            buffer,
            anchor,
            place.pos,
            (size, overlap),
        ),
        OverlapArea::Left => patch_rect_error(
            metric,
            source,
            buffer,
            anchor,
            place.pos,
            (overlap, size),
        ),
        OverlapArea::TopLeft => {
            let top = patch_rect_error(metric, source, buffer, anchor, place.pos, (size, overlap));
            let left = patch_rect_error(
                metric,
                source,
                buffer,
                (anchor.0, anchor.1 + overlap),
                (place.pos.0, place.pos.1 + overlap),
                (overlap, size - overlap),
            );
            top + left
        },
    }
}

/// The error surface of the patch of `source` at `anchor`: a grid as large
/// as the patch that holds, for each cell of the overlap area, the distance
/// between the patch's pixel and the buffer's, and zero elsewhere.
pub fn patch_error_surface<M: Metric>(
    metric: &M,
    source: &Image,
    buffer: &Image,
    place: Placement,
    anchor: (u32, u32),
) -> (surface: ErrorSurface)
    requires
        place.fits(source, buffer),
        place.anchor(source, anchor.0 as int, anchor.1 as int),
    ensures
        surface.wf(),
        surface.spec_width() == place.patch_size,
        surface.spec_height() == place.patch_size,
        forall|x: int, y: int|
            surface.has(x, y) ==> #[trigger] surface.at(x, y) == spec_surface_cell(
                metric,
                source,
                buffer,
                place,
                anchor.0 as int,
                anchor.1 as int,
                x,
                y,
            ),
{
    let size = place.patch_size;
    let overlap = place.overlap;
    proof {
        source.lemma_area();
        assert(size * size <= source.spec_width() * source.spec_height()) by (nonlinear_arith)
            requires
                0 <= size <= source.spec_width(),
                0 <= size <= source.spec_height(),
        ;
    }
    let mut surface: ErrorSurface = Grid::filled(size, size, 0u32).unwrap();
    let mut y: u32 = 0;
    while y < size
        invariant
            place.fits(source, buffer),
            place.anchor(source, anchor.0 as int, anchor.1 as int),
            size == place.patch_size,
            overlap == place.overlap,
            surface.wf(),
            surface.spec_width() == size,
            surface.spec_height() == size,
            y <= size,
            forall|a: int, b: int|
                surface.has(a, b) ==> #[trigger] surface.at(a, b) == (if b < y {
                    spec_surface_cell(
                        metric,
                        source,
                        buffer,
                        place,
                        anchor.0 as int,
                        anchor.1 as int,
                        a,
                        b,
                    )
                } else {
                    0
                }),
        decreases size - y,
    {
        let mut x: u32 = 0;
        while x < size
            invariant
                place.fits(source, buffer),
                place.anchor(source, anchor.0 as int, anchor.1 as int),
                size == place.patch_size,
                overlap == place.overlap,
                surface.wf(),
                surface.spec_width() == size,
                surface.spec_height() == size,
                y < size,
                x <= size,
                forall|a: int, b: int|
                    surface.has(a, b) ==> #[trigger] surface.at(a, b) == (if b < y || (b == y && a
                        < x) {
                        spec_surface_cell(
                            metric,
                            source,
                            buffer,
                            place,
                            anchor.0 as int,
                            anchor.1 as int,
                            a,
                            b,
                        )
                    } else {
                        0
                    }),
            decreases size - x,
        {
            let inside = match place.area {
                OverlapArea::Top => y < overlap,
                OverlapArea::Left => x < overlap,
                OverlapArea::TopLeft => y < overlap || x < overlap,
            };
            if inside {
                let p = source.get_pixel(anchor.0 + x, anchor.1 + y);
                let q = buffer.get_pixel(place.pos.0 + x, place.pos.1 + y);
                surface.put_pixel(x, y, metric.distance(&p, &q));
            }
            x += 1;
        }
        y += 1;
    }
    surface
}

/// `candidate` stands for a patch of `source` that can be put at the
/// placement, and holds the patch's error.
pub open spec fn spec_scored<M: Metric>(
    candidate: Candidate,
    metric: &M,
    source: &Image,
    buffer: &Image,
    place: Placement,
) -> bool {
    &&& place.anchor(source, candidate.coords.0 as int, candidate.coords.1 as int)
    &&& candidate.error.count() == 1
    &&& candidate.error.total() == spec_patch_error(
        metric,
        source,
        buffer,
        place,
        candidate.coords.0 as int,
        candidate.coords.1 as int,
    )
}

/// One pass over the places of the source where a patch can be taken, row
/// by row: those that are looked at. Where `chance` is `None` every place is
/// looked at; else each is with that chance, decided by a draw of its own.
pub fn sample_anchors(
    source: &Image,
    place: Placement,
    chance: Option<Chance>,
    rng: &mut XorShiftRng,
) -> (anchors: Vec<(u32, u32)>)
    requires
        1 <= place.patch_size <= source.spec_width(),
        place.patch_size <= source.spec_height(),
        chance matches Some(c) ==> c.valid(),
    ensures
        forall|k: int|
            0 <= k < anchors@.len() ==> place.anchor(
                source,
                (#[trigger] anchors@[k]).0 as int,
                anchors@[k].1 as int,
            ),
        chance is None ==> forall|ax: int, ay: int| #[trigger]
            place.anchor(source, ax, ay) ==> spec_holds(anchors@, ax, ay),
{
    let mut anchors: Vec<(u32, u32)> = Vec::new();
    let columns: u32 = source.width() - place.patch_size + 1;
    let rows: u32 = source.height() - place.patch_size + 1;
    let mut y: u32 = 0;
    while y < rows
        invariant
            chance matches Some(c) ==> c.valid(),
            1 <= place.patch_size,
            columns == source.spec_width() - place.patch_size + 1,
            rows == source.spec_height() - place.patch_size + 1,
            y <= rows,
            forall|k: int|
                0 <= k < anchors@.len() ==> place.anchor(
                    source,
                    (#[trigger] anchors@[k]).0 as int,
                    anchors@[k].1 as int,
                ),
            chance is None ==> forall|ax: int, ay: int| #[trigger]
                place.anchor(source, ax, ay) && ay < y ==> spec_holds(anchors@, ax, ay),
        decreases rows - y,
    {
        let mut x: u32 = 0;
        while x < columns
            invariant
                chance matches Some(c) ==> c.valid(),
                1 <= place.patch_size,
                columns == source.spec_width() - place.patch_size + 1,
                rows == source.spec_height() - place.patch_size + 1,
                y < rows,
                x <= columns,
                forall|k: int|
                    0 <= k < anchors@.len() ==> place.anchor(
                        source,
                        (#[trigger] anchors@[k]).0 as int,
                        anchors@[k].1 as int,
                    ),
                chance is None ==> forall|ax: int, ay: int| #[trigger]
                    place.anchor(source, ax, ay) && (ay < y || (ay == y && ax < x)) ==> spec_holds(
                        anchors@,
                        ax,
                        ay,
                    ),
            decreases columns - x,
        {
            let ghost before = anchors@;
            let looked_at = match chance {
                None => true,
                Some(c) => below(rng, c.denominator) < c.numerator,
            };
            if looked_at {
                anchors.push((x, y));
                proof {
                    assert(anchors@[before.len() as int] == (x, y));
                    assert(spec_holds(anchors@, x as int, y as int));
                }
            }
            proof {
                if chance is None {
                    assert forall|ax: int, ay: int| #[trigger]
                        place.anchor(source, ax, ay) && (ay < y || (ay == y && ax < x
                            + 1)) implies spec_holds(anchors@, ax, ay) by {
                        if ay == y && ax == x {
                        } else {
                            assert(spec_holds(before, ax, ay));
                            let k = choose|k: int|
                                0 <= k < before.len() && (#[trigger] before[k]).0 == ax
                                    && before[k].1 == ay;
                            assert(anchors@[k] == before[k]);
                        }
                    }
                }
            }
            x += 1;
        }
        y += 1;
    }
    anchors
}

/// One pass over the patches of the source, row by row: each patch that is
/// looked at, with its error. Where `chance` is `None` every patch is looked
/// at; else each is with that chance, decided by a draw of its own. The
/// errors are computed in parallel.
pub fn scan_anchors<M: Metric>(
    metric: &M,
    source: &Image,
    buffer: &Image,
    place: Placement,
    chance: Option<Chance>,
    rng: &mut XorShiftRng,
) -> (out: Vec<Candidate>)
    requires
        place.fits(source, buffer),
        chance matches Some(c) ==> c.valid(),
    ensures
        forall|k: int|
            0 <= k < out@.len() ==> spec_scored(#[trigger] out@[k], metric, source, buffer, place),
        chance is None ==> forall|ax: int, ay: int| #[trigger]
            place.anchor(source, ax, ay) ==> spec_listed(out@, ax, ay),
{
    let anchors = sample_anchors(source, place, chance, rng);
    let error_of = |a: &(u32, u32)| -> (e: u64)
        requires
            place.anchor(source, a.0 as int, a.1 as int),
        ensures
            e == spec_patch_error(metric, source, buffer, place, a.0 as int, a.1 as int),
        { patch_error(metric, source, buffer, place, *a) };
    let errors = par_map(&anchors, error_of);
    proof {
        assert forall|i: int| 0 <= i < anchors@.len() implies #[trigger] errors@[i]
            == spec_patch_error(
            metric,
            source,
            buffer,
            place,
            anchors@[i].0 as int,
            anchors@[i].1 as int,
        ) by {
            assert(call_ensures(error_of, (&anchors@[i],), errors@[i]));
        }
    }
    let mut out: Vec<Candidate> = Vec::new();
    let n = anchors.len();
    let mut k: usize = 0;
    while k < n
        invariant
            n == anchors@.len(),
            n == errors@.len(),
            k <= n,
            out@.len() == k,
            forall|i: int|
                0 <= i < n ==> place.anchor(
                    source,
                    (#[trigger] anchors@[i]).0 as int,
                    anchors@[i].1 as int,
                ),
            forall|i: int|
                0 <= i < n ==> #[trigger] errors@[i] == spec_patch_error(
                    metric,
                    source,
                    buffer,
                    place,
                    anchors@[i].0 as int,
                    anchors@[i].1 as int,
                ),
            forall|i: int|
                0 <= i < k ==> (#[trigger] out@[i]).coords == anchors@[i] && spec_scored(
                    out@[i],
                    metric,
                    source,
                    buffer,
                    place,
                ),
        decreases n - k,
    {
        let error = MeanError::try_from(errors[k], 1).unwrap();
        out.push(Candidate { coords: anchors[k], error });
        k += 1;
    }
    proof {
        if chance is None {
            assert forall|ax: int, ay: int| #[trigger]
                place.anchor(source, ax, ay) implies spec_listed(out@, ax, ay) by {
                assert(spec_holds(anchors@, ax, ay));
                let i = choose|i: int|
                    0 <= i < anchors@.len() && (#[trigger] anchors@[i]).0 == ax && anchors@[i].1
                        == ay;
                assert(out@[i].coords == anchors@[i]);
            }
        }
    }
    out
}

/// Selects the patch of the source to put at the placement: one among those
/// whose error over the overlap area is within ten percent of the smallest,
/// chosen at random among them.
///
/// Where `chance` is `None`, every patch of the source is looked at. Else
/// each is looked at with that chance, in passes over the whole source that
/// are repeated until one pass has looked at a patch; the search gives up
/// after `MAX_SAMPLING_PASSES` passes.
pub fn select_candidate<M: Metric>(
    metric: &M,
    source: &Image,
    buffer: &Image,
    place: Placement,
    chance: Option<Chance>,
    rng: &mut XorShiftRng,
) -> (r: Result<Patch, Error>)
    requires
        place.fits(source, buffer),
        chance matches Some(c) ==> c.valid(),
    ensures
        chance is None ==> r is Ok,
        r matches Ok(patch) ==> {
            &&& patch.size == place.patch_size
            &&& place.anchor(source, patch.coords.0 as int, patch.coords.1 as int)
            &&& chance is None ==> forall|ax: int, ay: int| #[trigger]
                place.anchor(source, ax, ay) ==> crate::mean::spec_within_tolerance(
                    spec_patch_error(
                        metric,
                        source,
                        buffer,
                        place,
                        patch.coords.0 as int,
                        patch.coords.1 as int,
                    ),
                    spec_patch_error(metric, source, buffer, place, ax, ay),
                )
        },
        r matches Err(e) ==> e == Error::SynthesisError(SynthesisFault::SearchExhausted),
{
    let mut candidates = scan_anchors(metric, source, buffer, place, chance, rng);
    let mut passes: u32 = 1;
    while candidates.len() == 0 && passes < MAX_SAMPLING_PASSES
        invariant
            place.fits(source, buffer),
            chance matches Some(c) ==> c.valid(),
            passes <= MAX_SAMPLING_PASSES,
            forall|k: int|
                0 <= k < candidates@.len() ==> spec_scored(
                    #[trigger] candidates@[k],
                    metric,
                    source,
                    buffer,
                    place,
                ),
            chance is None ==> forall|ax: int, ay: int| #[trigger]
                place.anchor(source, ax, ay) ==> spec_listed(candidates@, ax, ay),
        decreases MAX_SAMPLING_PASSES - passes,
    {
        candidates = scan_anchors(metric, source, buffer, place, chance, rng);
        passes += 1;
    }
    proof {
        if chance is None {
            assert(place.anchor(source, 0, 0));
            assert(spec_listed(candidates@, 0, 0));
        }
    }
    if candidates.len() == 0 {
        return Err(Error::SynthesisError(SynthesisFault::SearchExhausted));
    }
    proof {
        assert forall|k: int| 0 <= k < candidates@.len() implies (#[trigger] candidates@[k]).error.wf() by {
            assert(spec_scored(candidates@[k], metric, source, buffer, place));
        }
    }
    let chosen = choose_among(&candidates, rng);
    proof {
        let k = choose|k: int| 0 <= k < candidates@.len() && candidates@[k] == chosen;
        assert(spec_scored(candidates@[k], metric, source, buffer, place));
        if chance is None {
            assert forall|ax: int, ay: int| #[trigger]
                place.anchor(source, ax, ay) implies crate::mean::spec_within_tolerance(
                spec_patch_error(
                    metric,
                    source,
                    buffer,
                    place,
                    chosen.coords.0 as int,
                    chosen.coords.1 as int,
                ),
                spec_patch_error(metric, source, buffer, place, ax, ay),
            ) by {
                assert(spec_listed(candidates@, ax, ay));
                let m = choose|m: int|
                    0 <= m < candidates@.len() && (#[trigger] candidates@[m]).coords.0 == ax
                        && candidates@[m].coords.1 == ay;
                assert(spec_scored(candidates@[m], metric, source, buffer, place));
                assert(chosen.error.within_tolerance(&candidates@[m].error));
            }
        }
    }
    Ok(Patch::new(chosen.coords.0, chosen.coords.1, place.patch_size))
}

/// Whether the cell `(x, y)` of a new patch is taken from the patch: it is
/// where it lies on or past every seam of the overlap area, to the right of
/// the vertical seam and below the horizontal one. A cell that is not taken
/// keeps what the buffer holds.
pub open spec fn spec_taken(
    area: OverlapArea,
    vertical: Seq<int>,
    horizontal: Seq<int>,
    x: int,
    y: int,
) -> bool {
    match area {
        OverlapArea::Top => y >= horizontal[x],
        OverlapArea::Left => x >= vertical[y],
        OverlapArea::TopLeft => x >= vertical[y] && y >= horizontal[x],
    }
}

/// The cell `(x, y)` of the buffer lies under the patch of the placement.
pub open spec fn spec_under_patch(place: Placement, x: int, y: int) -> bool {
    &&& place.pos.0 <= x < place.pos.0 + place.patch_size
    &&& place.pos.1 <= y < place.pos.1 + place.patch_size
}

/// `after` is `before` with the patch of `source` at `(ax, ay)` cut along
/// the seams and laid on at the placement.
pub open spec fn spec_pasted(
    source: &Image,
    before: &Image,
    after: &Image,
    place: Placement,
    ax: int,
    ay: int,
    vertical: Seq<int>,
    horizontal: Seq<int>,
) -> bool {
    forall|x: int, y: int|
        before.has(x, y) ==> #[trigger] after.at(x, y) == (if spec_under_patch(place, x, y)
            && spec_taken(place.area, vertical, horizontal, x - place.pos.0, y - place.pos.1) {
            source.at(ax + (x - place.pos.0), ay + (y - place.pos.1))
        } else {
            before.at(x, y)
        })
}

/// Cuts the patch of `source` at `anchor` along the seams and lays it on the
/// buffer at the placement: the cells on or past the seams are overwritten
/// with the patch, all others keep what they hold.
pub fn blit_patch(
    buffer: &mut Image,
    source: &Image,
    place: Placement,
    anchor: (u32, u32),
    vertical: &Vec<u32>,
    horizontal: &Vec<u32>,
)
    requires
        place.fits(source, old(buffer)),
        place.anchor(source, anchor.0 as int, anchor.1 as int),
        place.area != OverlapArea::Top ==> vertical@.len() == place.patch_size,
        place.area != OverlapArea::Left ==> horizontal@.len() == place.patch_size,
    ensures
        final(buffer).wf(),
        final(buffer).spec_width() == old(buffer).spec_width(),
        final(buffer).spec_height() == old(buffer).spec_height(),
        spec_pasted(
            source,
            old(buffer),
            final(buffer),
            place,
            anchor.0 as int,
            anchor.1 as int,
            crate::seam::spec_lanes(vertical@),
            crate::seam::spec_lanes(horizontal@),
        ),
{
    let size = place.patch_size;
    let ghost v = crate::seam::spec_lanes(vertical@);
    let ghost h = crate::seam::spec_lanes(horizontal@);
    let mut y: u32 = 0;
    while y < size
        invariant
            place.fits(source, buffer),
            place.anchor(source, anchor.0 as int, anchor.1 as int),
            place.area != OverlapArea::Top ==> vertical@.len() == place.patch_size,
            place.area != OverlapArea::Left ==> horizontal@.len() == place.patch_size,
            v == crate::seam::spec_lanes(vertical@),
            h == crate::seam::spec_lanes(horizontal@),
            size == place.patch_size,
            buffer.spec_width() == old(buffer).spec_width(),
            buffer.spec_height() == old(buffer).spec_height(),
            y <= size,
            forall|a: int, b: int|
                old(buffer).has(a, b) ==> #[trigger] buffer.at(a, b) == (if spec_under_patch(
                    place,
                    a,
                    b,
                ) && b < place.pos.1 + y && spec_taken(
                    place.area,
                    v,
                    h,
                    a - place.pos.0,
                    b - place.pos.1,
                ) {
                    source.at(anchor.0 + (a - place.pos.0), anchor.1 + (b - place.pos.1))
                } else {
                    old(buffer).at(a, b)
                }),
        decreases size - y,
    {
        let mut x: u32 = 0;
        while x < size
            invariant
                place.fits(source, buffer),
                place.anchor(source, anchor.0 as int, anchor.1 as int),
                place.area != OverlapArea::Top ==> vertical@.len() == place.patch_size,
                place.area != OverlapArea::Left ==> horizontal@.len() == place.patch_size,
                v == crate::seam::spec_lanes(vertical@),
                h == crate::seam::spec_lanes(horizontal@),
                size == place.patch_size,
                buffer.spec_width() == old(buffer).spec_width(),
                buffer.spec_height() == old(buffer).spec_height(),
                y < size,
                x <= size,
                forall|a: int, b: int|
                    old(buffer).has(a, b) ==> #[trigger] buffer.at(a, b) == (if spec_under_patch(
                        place,
                        a,
                        b,
                    ) && (b < place.pos.1 + y || (b == place.pos.1 + y && a < place.pos.0 + x))
                        && spec_taken(place.area, v, h, a - place.pos.0, b - place.pos.1) {
                        source.at(anchor.0 + (a - place.pos.0), anchor.1 + (b - place.pos.1))
                    } else {
                        old(buffer).at(a, b)
                    }),
            decreases size - x,
        {
            let taken = match place.area {
                OverlapArea::Top => y >= horizontal[x as usize],
                OverlapArea::Left => x >= vertical[y as usize],
                OverlapArea::TopLeft => x >= vertical[y as usize] && y >= horizontal[x as usize],
            };
            proof {
                if place.area != OverlapArea::Top {
                    assert(v[y as int] == vertical@[y as int]);
                }
                if place.area != OverlapArea::Left {
                    assert(h[x as int] == horizontal@[x as int]);
                }
            }
            if taken {
                let p = source.get_pixel(anchor.0 + x, anchor.1 + y);
                buffer.put_pixel(place.pos.0 + x, place.pos.1 + y, p);
            }
            x += 1;
        }
        y += 1;
    }
}

/// `surface` is the error surface of the patch of `source` at `(ax, ay)`.
pub open spec fn spec_is_surface<M: Metric>(
    surface: &Grid<u32>,
    metric: &M,
    source: &Image,
    buffer: &Image,
    place: Placement,
    ax: int,
    ay: int,
) -> bool {
    &&& surface.spec_width() == place.patch_size
    &&& surface.spec_height() == place.patch_size
    &&& forall|x: int, y: int|
        surface.has(x, y) ==> #[trigger] surface.at(x, y) == spec_surface_cell(
            metric,
            source,
            buffer,
            place,
            ax,
            ay,
            x,
            y,
        )
}

/// The seams are fixed by what is compared: two error surfaces of the same
/// patch against the same buffer, at the same placement, have the same
/// vertical and the same horizontal minimum-cost seam. Nothing random enters
/// the error surface or the seams.
pub proof fn lemma_seams_determined<M: Metric>(
    metric: &M,
    source: &Image,
    buffer: &Image,
    place: Placement,
    ax: int,
    ay: int,
    first: &Grid<u32>,
    second: &Grid<u32>,
)
    requires
        1 <= place.overlap <= place.patch_size,
        spec_is_surface(first, metric, source, buffer, place, ax, ay),
        spec_is_surface(second, metric, source, buffer, place, ax, ay),
    ensures
        spec_seam(first, true, place.overlap as int, place.patch_size as int) == spec_seam(
            second,
            true,
            place.overlap as int,
            place.patch_size as int,
        ),
        spec_seam(first, false, place.overlap as int, place.patch_size as int) == spec_seam(
            second,
            false,
            place.overlap as int,
            place.patch_size as int,
        ),
{
    let lanes = place.overlap as int;
    let steps = place.patch_size as int;
    assert forall|lane: int, step: int|
        0 <= lane < lanes && 0 <= step < steps implies #[trigger] spec_band(
        first,
        true,
        lane,
        step,
    ) == spec_band(second, true, lane, step) by {
        assert(first.has(lane, step) && second.has(lane, step));
    }
    assert forall|lane: int, step: int|
        0 <= lane < lanes && 0 <= step < steps implies #[trigger] spec_band(
        first,
        false,
        lane,
        step,
    ) == spec_band(second, false, lane, step) by {
        assert(first.has(step, lane) && second.has(step, lane));
    }
    lemma_same_seam(first, second, true, lanes, steps);
    lemma_same_seam(first, second, false, lanes, steps);
}

/// The patch `patch` of the source has been selected for the placement and
/// laid on: `after` is `before` with that patch cut along the minimum-cost
/// seams of its error surface. Where every candidate was looked at
/// (`exhaustive`), the patch's error is within ten percent of the error of
/// every patch of the source.
pub open spec fn spec_placed<M: Metric>(
    metric: &M,
    source: &Image,
    before: &Image,
    after: &Image,
    place: Placement,
    exhaustive: bool,
    patch: Patch,
) -> bool {
    let (ax, ay) = (patch.coords.0 as int, patch.coords.1 as int);
    &&& patch.size == place.patch_size
    &&& place.anchor(source, ax, ay)
    &&& after.spec_width() == before.spec_width()
    &&& after.spec_height() == before.spec_height()
    &&& exhaustive ==> forall|bx: int, by: int| #[trigger]
        place.anchor(source, bx, by) ==> crate::mean::spec_within_tolerance(
            spec_patch_error(metric, source, before, place, ax, ay),
            spec_patch_error(metric, source, before, place, bx, by),
        )
    &&& forall|surface: Grid<u32>| #[trigger]
        spec_is_surface(&surface, metric, source, before, place, ax, ay) ==> spec_pasted(
            source,
            before,
            after,
            place,
            ax,
            ay,
            spec_seam(&surface, true, place.overlap as int, place.patch_size as int),
            spec_seam(&surface, false, place.overlap as int, place.patch_size as int),
        )
}

/// What laying a patch on leaves behind: outside the patch the buffer is
/// unchanged; under it, each cell holds the patch's pixel or what it held
/// before, and outside the overlap area it holds the patch's pixel.
pub open spec fn spec_laid(
    source: &Image,
    before: &Image,
    after: &Image,
    place: Placement,
    ax: int,
    ay: int,
) -> bool {
    forall|x: int, y: int|
        before.has(x, y) ==> {
            let patch_pixel = source.at(ax + (x - place.pos.0), ay + (y - place.pos.1));
            if !spec_under_patch(place, x, y) {
                #[trigger] after.at(x, y) == before.at(x, y)
            } else if spec_in_overlap(
                place.area,
                place.overlap as int,
                x - place.pos.0,
                y - place.pos.1,
            ) {
                after.at(x, y) == before.at(x, y) || after.at(x, y) == patch_pixel
            } else {
                after.at(x, y) == patch_pixel
            }
        }
}

/// Puts one patch: selects a patch of the source for the placement, finds
/// the minimum-cost seams through the overlap area of its error surface, and
/// lays the patch on the buffer, cut along the seams.
///
/// What the buffer holds afterwards is fixed by the patch that was selected,
/// which is returned.
pub fn place_patch<M: Metric>(
    metric: &M,
    source: &Image,
    buffer: &mut Image,
    place: Placement,
    chance: Option<Chance>,
    rng: &mut XorShiftRng,
) -> (r: Result<Patch, Error>)
    requires
        place.fits(source, old(buffer)),
        chance matches Some(c) ==> c.valid(),
    ensures
        final(buffer).wf(),
        final(buffer).spec_width() == old(buffer).spec_width(),
        final(buffer).spec_height() == old(buffer).spec_height(),
        chance is None ==> r is Ok,
        r matches Err(e) ==> e == Error::SynthesisError(SynthesisFault::SearchExhausted)
            && forall|x: int, y: int|
            old(buffer).has(x, y) ==> #[trigger] final(buffer).at(x, y) == old(buffer).at(x, y),
        r matches Ok(patch) ==> {
            &&& spec_placed(
                metric,
                source,
                old(buffer),
                final(buffer),
                place,
                chance is None,
                patch,
            )
            &&& spec_laid(
                source,
                old(buffer),
                final(buffer),
                place,
                patch.coords.0 as int,
                patch.coords.1 as int,
            )
        },
{
    let patch = match select_candidate(metric, source, buffer, place, chance, rng) {
        Ok(patch) => patch,
        Err(e) => {
            return Err(e);
        },
    };
    let surface = patch_error_surface(metric, source, buffer, place, patch.coords);
    let vertical = match place.area {
        OverlapArea::Top => Vec::new(),
        _ => min_vertical_seam(&surface, place.overlap),
    };
    let horizontal = match place.area {
        OverlapArea::Left => Vec::new(),
        _ => min_horizontal_seam(&surface, place.overlap),
    };
    blit_patch(buffer, source, place, patch.coords, &vertical, &horizontal);
    proof {
        let ax = patch.coords.0 as int;
        let ay = patch.coords.1 as int;
        let lanes = place.overlap as int;
        let steps = place.patch_size as int;
        let v = spec_lanes(vertical@);
        let h = spec_lanes(horizontal@);
        assert forall|other: Grid<u32>| #[trigger]
            spec_is_surface(&other, metric, source, old(buffer), place, ax, ay) implies spec_pasted(
            source,
            old(buffer),
            buffer,
            place,
            ax,
            ay,
            spec_seam(&other, true, lanes, steps),
            spec_seam(&other, false, lanes, steps),
        ) by {
            lemma_seams_determined(metric, source, old(buffer), place, ax, ay, &surface, &other);
        }
        assert forall|x: int, y: int| old(buffer).has(x, y) implies {
            let patch_pixel = source.at(ax + (x - place.pos.0), ay + (y - place.pos.1));
            if !spec_under_patch(place, x, y) {
                #[trigger] buffer.at(x, y) == old(buffer).at(x, y)
            } else if spec_in_overlap(
                place.area,
                place.overlap as int,
                x - place.pos.0,
                y - place.pos.1,
            ) {
                buffer.at(x, y) == old(buffer).at(x, y) || buffer.at(x, y) == patch_pixel
            } else {
                buffer.at(x, y) == patch_pixel
            }
        } by {
            if spec_under_patch(place, x, y) {
                let i = x - place.pos.0;
                let j = y - place.pos.1;
                if place.area != OverlapArea::Top {
                    assert(v[j] == vertical@[j]);
                }
                if place.area != OverlapArea::Left {
                    assert(h[i] == horizontal@[i]);
                }
            }
        }
    }
    Ok(patch)
}

/// Implements quilting: an image laid out patch by patch from a seed.
pub struct Quilter<M> {
    source: Image,
    params: QuilterParams<M>,
    rng: XorShiftRng,
}

/// Why a source image and a set of quilting parameters cannot work together,
/// if they cannot: the patch does not fit into the source, the first patch
/// does not lie inside the source, or the working buffer would be too large.
pub open spec fn spec_quilt_refusal<M: Metric>(
    source: &Image,
    params: &QuilterParams<M>,
) -> Option<InvalidArgument> {
    let size = params.patch_size();
    if size > source.spec_width() || size > source.spec_height() {
        Some(InvalidArgument::PatchLargerThanSource)
    } else if params.seed_coords() matches Some(c) && (c.0 + size > source.spec_width() || c.1
        + size > source.spec_height()) {
        Some(InvalidArgument::SeedOutsideSource)
    } else if (params.size().0 + size) * (params.size().1 + size) > MAX_CELLS {
        Some(InvalidArgument::OutputTooLarge)
    } else {
        None
    }
}

/// Multiples of a step: the next one lies a step further, a later one is no
/// smaller, and each but the first is at least one step.
pub proof fn lemma_multiples(k: int, n: int, step: int)
    requires
        0 <= k <= n,
        0 < step,
    ensures
        (k + 1) * step == k * step + step,
        k * step <= n * step,
        0 <= k * step,
        k >= 1 ==> k * step >= step,
{
    assert((k + 1) * step == k * step + step) by (nonlinear_arith);
    assert(k * step <= n * step) by (nonlinear_arith)
        requires
            0 <= k <= n,
            0 < step,
    ;
    assert(0 <= k * step) by (nonlinear_arith)
        requires
            0 <= k,
            0 < step,
    ;
    if k >= 1 {
        assert(k * step >= step) by (nonlinear_arith)
            requires
                k >= 1,
                0 < step,
        ;
    }
}

/// How many patches, each a step further than the one before, it takes to
/// reach `length`: `length / step`, rounded up.
pub open spec fn spec_patches_along(length: int, step: int) -> int {
    (length - 1) / step + 1
}

/// How many patches, each a step further than the one before, it takes to
/// reach `length`: `length / step`, rounded up.
pub fn patches_along(length: u32, step: u32) -> (n: u32)
    requires
        0 < length,
        0 < step,
    ensures
        n == spec_patches_along(length as int, step as int),
        1 <= n,
        (n - 1) * step < length <= n * step,
{
    let n = (length - 1) / step + 1;
    proof {
        vstd::arithmetic::div_mod::lemma_fundamental_div_mod(length - 1, step as int);
        assert(step * ((length - 1) / (step as int)) == (n - 1) * step) by (nonlinear_arith)
            requires
                n - 1 == (length - 1) / (step as int),
        ;
        assert(n * step == (n - 1) * step + step) by (nonlinear_arith);
    }
    n
}

/// The placement of the patch in column `gx`, row `gy` of the grid of
/// patches.
pub open spec fn spec_placement(
    gx: int,
    gy: int,
    step: int,
    patch_size: u32,
    overlap: u32,
) -> Placement {
    Placement {
        pos: ((gx * step) as u32, (gy * step) as u32),
        patch_size,
        overlap,
        area: spec_overlap_area(gx, gy),
    }
}

/// The cell of the grid of patches that is filled just before `(gx, gy)`:
/// the one to its left, or the last of the row above.
pub open spec fn spec_previous_cell(gx: int, gy: int, columns: int) -> (int, int) {
    if gx > 0 {
        (gx - 1, gy)
    } else {
        (columns - 1, gy - 1)
    }
}

/// The working buffer as a run starts with it: a patch's side larger than
/// the output in both directions, black but for the first patch, the patch
/// of the source at `(sx, sy)`, in its top-left corner.
pub open spec fn spec_started(
    source: &Image,
    size: (u32, u32),
    patch_size: u32,
    sx: int,
    sy: int,
    buffer: &Image,
) -> bool {
    &&& buffer.spec_width() == size.0 + patch_size
    &&& buffer.spec_height() == size.1 + patch_size
    &&& 0 <= sx && sx + patch_size <= source.spec_width()
    &&& 0 <= sy && sy + patch_size <= source.spec_height()
    &&& forall|x: int, y: int|
        buffer.has(x, y) ==> #[trigger] buffer.at(x, y) == (if x < patch_size && y < patch_size {
            source.at(sx + x, sy + y)
        } else {
            Rgb { r: 0, g: 0, b: 0 }
        })
}

/// The buffer after the patch in column `gx`, row `gy` was put comes from
/// the buffer before it by selecting a patch for that place and laying it
/// on. `states` holds, for each cell of the grid of patches, the buffer after
/// its patch was put.
pub open spec fn spec_cell_placed<M: Metric>(
    source: &Image,
    params: &QuilterParams<M>,
    states: Map<(int, int), Image>,
    columns: int,
    gx: int,
    gy: int,
) -> bool {
    exists|patch: Patch| #[trigger]
        spec_placed(
            &params.distance(),
            source,
            &states[spec_previous_cell(gx, gy, columns)],
            &states[(gx, gy)],
            spec_placement(gx, gy, params.step(), params.patch_size(), params.overlap()),
            params.selection_chance() is None,
            patch,
        )
}

/// `states` are the buffers of a run of the quilting: the run starts with
/// the first patch, taken from `(sx, sy)` in the source and from
/// `seed_coords` where that is given, and puts a patch for every other cell
/// of the grid of patches, row by row.
pub open spec fn spec_quilting<M: Metric>(
    source: &Image,
    params: &QuilterParams<M>,
    states: Map<(int, int), Image>,
    sx: int,
    sy: int,
) -> bool {
    let columns = spec_patches_along(params.size().0 as int, params.step());
    let rows = spec_patches_along(params.size().1 as int, params.step());
    &&& forall|gx: int, gy: int|
        0 <= gx < columns && 0 <= gy < rows ==> #[trigger] states.dom().contains((gx, gy))
    &&& spec_started(source, params.size(), params.patch_size(), sx, sy, &states[(0, 0)])
    &&& params.seed_coords() matches Some(s) ==> sx == s.0 && sy == s.1
    &&& forall|gx: int, gy: int|
        0 <= gx < columns && 0 <= gy < rows && (gx != 0 || gy != 0) ==> #[trigger] spec_cell_placed(
            source,
            params,
            states,
            columns,
            gx,
            gy,
        )
}

/// `img` is what a run of the quilting ends with: the last buffer, cut to
/// the size asked for.
pub open spec fn spec_quilted<M: Metric>(
    source: &Image,
    params: &QuilterParams<M>,
    states: Map<(int, int), Image>,
    sx: int,
    sy: int,
    img: &Image,
) -> bool {
    let columns = spec_patches_along(params.size().0 as int, params.step());
    let rows = spec_patches_along(params.size().1 as int, params.step());
    &&& spec_quilting(source, params, states, sx, sy)
    &&& img.spec_width() == params.size().0
    &&& img.spec_height() == params.size().1
    &&& forall|x: int, y: int|
        img.has(x, y) ==> #[trigger] img.at(x, y) == states[(columns - 1, rows - 1)].at(x, y)
}

/// Whether the cell `(a, b)` of the grid of patches comes before `(gx, gy)`,
/// row by row.
pub open spec fn spec_comes_before(a: int, b: int, gx: int, gy: int) -> bool {
    b < gy || (b == gy && a < gx)
}

/// The cell `(x, y)` of the working buffer has been laid over by a patch
/// when the patch in column `gx` of the row at `py` is the next to be put:
/// it lies in a row of patches that is complete, or under a patch of the row
/// in work. `px` is the corner of the next patch, `full` how far a complete
/// row reaches.
pub open spec fn spec_covered(
    x: int,
    y: int,
    gx: int,
    gy: int,
    px: int,
    py: int,
    full: int,
    size: int,
    overlap: int,
) -> bool {
    &&& 0 <= x
    &&& 0 <= y
    &&& {
        ||| (gy >= 1 && x < full && y < py + overlap)
        ||| (gx >= 1 && x < px + overlap && py <= y < py + size)
    }
}

impl<M: Metric> Quilter<M> {
    /// The image that the patches are taken from.
    pub closed spec fn source(&self) -> Image {
        self.source
    }

    /// The parameters of the quilting.
    pub closed spec fn params(&self) -> QuilterParams<M> {
        self.params
    }

    /// The invariant: source and parameters are well-formed.
    pub open spec fn wf(&self) -> bool {
        self.source().wf() && self.params().wf()
    }

    /// Create a new `Quilter`, whose random choices follow `rng`.
    pub fn with_rng(source: Image, params: QuilterParams<M>, rng: XorShiftRng) -> (q: Quilter<M>)
        requires
            source.wf(),
            params.wf(),
        ensures
            q.wf(),
            q.source() == source,
            q.params() == params,
    {
        Quilter { source, params, rng }
    }

    /// Create a new `Quilter`, whose random choices follow a generator with a
    /// random seed.
    pub fn new(source: Image, params: QuilterParams<M>) -> (q: Quilter<M>)
        requires
            source.wf(),
            params.wf(),
        ensures
            q.wf(),
            q.source() == source,
            q.params() == params,
    {
        Quilter { source, params, rng: new_rng_random_seed() }
    }

    /// Checks the parameters against the source, before any image work.
    fn check(&self) -> (r: Option<InvalidArgument>)
        requires
            self.wf(),
        ensures
            r == spec_quilt_refusal(&self.source(), &self.params()),
    {
        let size = self.params.patch_size;
        if size > self.source.width() || size > self.source.height() {
            return Some(InvalidArgument::PatchLargerThanSource);
        }
        if let Some(c) = self.params.seed_coords {
            if c.0 > self.source.width() - size || c.1 > self.source.height() - size {
                return Some(InvalidArgument::SeedOutsideSource);
            }
        }
        let bw: u64 = self.params.size.0 as u64 + size as u64;
        let bh: u64 = self.params.size.1 as u64 + size as u64;
        if bw > MAX_CELLS as u64 || bh > MAX_CELLS as u64 {
            assert(bw * bh > MAX_CELLS) by (nonlinear_arith)
                requires
                    bw > MAX_CELLS || bh > MAX_CELLS,
                    bw >= 1,
                    bh >= 1,
            ;
            return Some(InvalidArgument::OutputTooLarge);
        }
        assert(bw * bh <= 0xffff_ffff * 0xffff_ffff) by (nonlinear_arith)
            requires
                0 <= bw <= 0xffff_ffff,
                0 <= bh <= 0xffff_ffff,
        ;
        if bw * bh > MAX_CELLS as u64 {
            return Some(InvalidArgument::OutputTooLarge);
        }
        None
    }

    /// Synthesize an image by quilting.
    ///
    /// The parameters are first checked against the source; if they are
    /// refused, no image work is done. Else the image is what a run ends with:
    /// the first patch is put in the top-left corner of the working buffer,
    /// then, row by row, a patch is selected for each other cell of the grid of
    /// patches and laid on, cut along its seams, and at last the buffer is cut
    /// to the size asked for. So the image has that size, and each of its
    /// pixels has the colour of some pixel of the source: no pixel is left
    /// unset. Where the place of the first patch in the source
    /// was given, the part of that patch that no other patch overlaps stands
    /// unchanged in the top-left corner. Where every candidate is looked at,
    /// the run cannot fail; with a selection chance it fails if random
    /// sampling, for some patch, has looked at no candidate in any pass.
    #[verifier::rlimit(50)]
    pub fn quilt_image(&mut self) -> (r: Result<Image, Error>)
        requires
            old(self).wf(),
        ensures
            final(self).wf(),
            final(self).source() == old(self).source(),
            final(self).params() == old(self).params(),
            spec_quilt_refusal(&old(self).source(), &old(self).params()) matches Some(a) ==> r
                == Err::<Image, Error>(Error::InvalidArguments(a)),
            spec_quilt_refusal(&old(self).source(), &old(self).params()) is None && old(
                self,
            ).params().selection_chance() is None ==> r is Ok,
            spec_quilt_refusal(&old(self).source(), &old(self).params()) is None ==> (r matches Err(
                e,
            ) ==> e == Error::SynthesisError(SynthesisFault::SearchExhausted)),
            r matches Ok(img) ==> {
                &&& img.wf()
                &&& img.spec_width() == old(self).params().size().0
                &&& img.spec_height() == old(self).params().size().1
                &&& forall|x: int, y: int|
                    img.has(x, y) ==> spec_appears_in(&old(self).source(), #[trigger] img.at(x, y))
                &&& old(self).params().seed_coords() matches Some(s) ==> forall|x: int, y: int|
                    img.has(x, y) && x < old(self).params().step() && y < old(self).params().step()
                        ==> #[trigger] img.at(x, y) == old(self).source().at(s.0 + x, s.1 + y)
                &&& exists|states: Map<(int, int), Image>, sx: int, sy: int| #[trigger]
                    spec_quilted(&old(self).source(), &old(self).params(), states, sx, sy, &img)
            },
    {
        if let Some(a) = self.check() {
            return Err(Error::InvalidArguments(a));
        }
        let (w, h) = self.params.size;
        let size: u32 = self.params.patch_size;
        let overlap: u32 = self.params.overlap;
        let step: u32 = size - overlap;
        let columns = patches_along(w, step);
        let rows = patches_along(h, step);
        let ghost full: int = (columns - 1) * step + size;
        proof {
            assert(w + size <= MAX_CELLS && h + size <= MAX_CELLS) by (nonlinear_arith)
                requires
                    (w + size) * (h + size) <= MAX_CELLS,
                    w + size >= 1,
                    h + size >= 1,
            ;
        }
        let mut buffer: Image = Grid::filled(w + size, h + size, Rgb { r: 0, g: 0, b: 0 }).unwrap();
        let (sx, sy) = match self.params.seed_coords {
            Some(c) => c,
            None => (
                below(&mut self.rng, self.source.width() - size + 1),
                below(&mut self.rng, self.source.height() - size + 1),
            ),
        };
        buffer.blit_rect(&Rect::new(sx, sy, size, size), (0, 0), &self.source);
        let ghost mut states: Map<(int, int), Image> = Map::empty().insert((0int, 0int), buffer);
        proof {
            assert(spec_started(
                &self.source,
                (w, h),
                size,
                sx as int,
                sy as int,
                &states[(0int, 0int)],
            ));
            assert forall|x: int, y: int| 0 <= x < size && 0 <= y < size implies spec_appears_in(
                &self.source,
                #[trigger] buffer.at(x, y),
            ) by {
                assert(buffer.has(x, y));
                assert(self.source.has(sx + x, sy + y));
            }
            lemma_multiples(0, columns as int - 1, step as int);
            lemma_multiples(0, rows as int - 1, step as int);
        }
        let mut gy: u32 = 0;
        let mut py: u32 = 0;
        while gy < rows
            invariant
                self.wf(),
                self.source() == old(self).source(),
                self.params() == old(self).params(),
                spec_quilt_refusal(&self.source(), &self.params()) is None,
                (w, h) == self.params().size(),
                size == self.params().patch_size(),
                overlap == self.params().overlap(),
                step == size - overlap,
                1 <= columns,
                1 <= rows,
                (columns - 1) * step < w <= columns * step,
                (rows - 1) * step < h <= rows * step,
                full == (columns - 1) * step + size,
                sx + size <= self.source().spec_width(),
                sy + size <= self.source().spec_height(),
                buffer.wf(),
                buffer.spec_width() == w + size,
                buffer.spec_height() == h + size,
                gy <= rows,
                py == gy * step,
                columns == spec_patches_along(w as int, step as int),
                rows == spec_patches_along(h as int, step as int),
                spec_started(
                    &self.source(),
                    (w, h),
                    size,
                    sx as int,
                    sy as int,
                    &states[(0int, 0int)],
                ),
                gy == 0 ==> buffer == states[(0int, 0int)],
                gy >= 1 ==> buffer == states[(columns - 1, gy - 1)],
                states.dom().contains((0int, 0int)),
                forall|a: int, b: int|
                    0 <= a < columns && 0 <= b < gy ==> #[trigger] states.dom().contains((a, b)),
                forall|a: int, b: int|
                    0 <= a < columns && 0 <= b < gy && (a != 0 || b != 0)
                        ==> #[trigger] spec_cell_placed(
                        &self.source(),
                        &self.params(),
                        states,
                        columns as int,
                        a,
                        b,
                    ),
                forall|x: int, y: int|
                    buffer.has(x, y) && (spec_covered(
                        x,
                        y,
                        0,
                        gy as int,
                        0,
                        py as int,
                        full,
                        size as int,
                        overlap as int,
                    ) || (gy == 0 && x < size && y < size)) ==> spec_appears_in(
                        &self.source(),
                        #[trigger] buffer.at(x, y),
                    ),
                forall|x: int, y: int|
                    0 <= x < step && 0 <= y < step ==> #[trigger] buffer.at(x, y)
                        == self.source().at(sx + x, sy + y),
            decreases rows - gy,
        {
            proof {
                lemma_multiples(gy as int, rows as int - 1, step as int);
            }
            let mut gx: u32 = 0;
            let mut px: u32 = 0;
            while gx < columns
                invariant
                    self.wf(),
                    self.source() == old(self).source(),
                    self.params() == old(self).params(),
                    spec_quilt_refusal(&self.source(), &self.params()) is None,
                    (w, h) == self.params().size(),
                    size == self.params().patch_size(),
                    overlap == self.params().overlap(),
                    step == size - overlap,
                    1 <= columns,
                    1 <= rows,
                    (columns - 1) * step < w <= columns * step,
                    (rows - 1) * step < h <= rows * step,
                    full == (columns - 1) * step + size,
                    sx + size <= self.source().spec_width(),
                    sy + size <= self.source().spec_height(),
                    buffer.wf(),
                    buffer.spec_width() == w + size,
                    buffer.spec_height() == h + size,
                    gy < rows,
                    py == gy * step,
                    py < h,
                    gy >= 1 ==> py >= step,
                    gx <= columns,
                    px == gx * step,
                    columns == spec_patches_along(w as int, step as int),
                    rows == spec_patches_along(h as int, step as int),
                    spec_started(
                        &self.source(),
                        (w, h),
                        size,
                        sx as int,
                        sy as int,
                        &states[(0int, 0int)],
                    ),
                    gx == 0 && gy == 0 ==> buffer == states[(0int, 0int)],
                    gx != 0 || gy != 0 ==> buffer == states[spec_previous_cell(
                        gx as int,
                        gy as int,
                        columns as int,
                    )],
                    states.dom().contains((0int, 0int)),
                    forall|a: int, b: int|
                        0 <= a < columns && 0 <= b < rows && spec_comes_before(
                            a,
                            b,
                            gx as int,
                            gy as int,
                        ) ==> #[trigger] states.dom().contains((a, b)),
                    forall|a: int, b: int|
                        0 <= a < columns && 0 <= b < rows && spec_comes_before(
                            a,
                            b,
                            gx as int,
                            gy as int,
                        ) && (a != 0 || b != 0) ==> #[trigger] spec_cell_placed(
                            &self.source(),
                            &self.params(),
                            states,
                            columns as int,
                            a,
                            b,
                        ),
                    forall|x: int, y: int|
                        buffer.has(x, y) && (spec_covered(
                            x,
                            y,
                            gx as int,
                            gy as int,
                            px as int,
                            py as int,
                            full,
                            size as int,
                            overlap as int,
                        ) || (gx == 0 && gy == 0 && x < size && y < size)) ==> spec_appears_in(
                            &self.source(),
                            #[trigger] buffer.at(x, y),
                        ),
                    forall|x: int, y: int|
                        0 <= x < step && 0 <= y < step ==> #[trigger] buffer.at(x, y)
                            == self.source().at(sx + x, sy + y),
                decreases columns - gx,
            {
                proof {
                    lemma_multiples(gx as int, columns as int - 1, step as int);
                }
                if gx != 0 || gy != 0 {
                    let place = Placement {
                        pos: (px, py),
                        patch_size: size,
                        overlap,
                        area: overlap_area(gx, gy),
                    };
                    let ghost before = buffer;
                    match place_patch(
                        &self.params.distance,
                        &self.source,
                        &mut buffer,
                        place,
                        self.params.selection_chance,
                        &mut self.rng,
                    ) {
                        Ok(patch) => {
                            proof {
                                let ax = patch.coords.0 as int;
                                let ay = patch.coords.1 as int;
                                let ghost earlier = states;
                                states = states.insert((gx as int, gy as int), buffer);
                                assert(place == spec_placement(
                                    gx as int,
                                    gy as int,
                                    step as int,
                                    size,
                                    overlap,
                                ));
                                assert(spec_cell_placed(
                                    &self.source(),
                                    &self.params(),
                                    states,
                                    columns as int,
                                    gx as int,
                                    gy as int,
                                )) by {
                                    assert(spec_placed(
                                        &self.params().distance(),
                                        &self.source(),
                                        &states[spec_previous_cell(
                                            gx as int,
                                            gy as int,
                                            columns as int,
                                        )],
                                        &states[(gx as int, gy as int)],
                                        place,
                                        self.params().selection_chance() is None,
                                        patch,
                                    ));
                                }
                                assert forall|a: int, b: int|
                                    0 <= a < columns && 0 <= b < rows && spec_comes_before(
                                        a,
                                        b,
                                        gx as int,
                                        gy as int,
                                    ) && (a != 0 || b != 0) implies #[trigger] spec_cell_placed(
                                    &self.source(),
                                    &self.params(),
                                    states,
                                    columns as int,
                                    a,
                                    b,
                                ) by {
                                    assert(spec_cell_placed(
                                        &self.source(),
                                        &self.params(),
                                        earlier,
                                        columns as int,
                                        a,
                                        b,
                                    ));
                                    let chosen = choose|chosen: Patch| #[trigger]
                                        spec_placed(
                                            &self.params().distance(),
                                            &self.source(),
                                            &earlier[spec_previous_cell(a, b, columns as int)],
                                            &earlier[(a, b)],
                                            spec_placement(
                                                a,
                                                b,
                                                self.params().step(),
                                                self.params().patch_size(),
                                                self.params().overlap(),
                                            ),
                                            self.params().selection_chance() is None,
                                            chosen,
                                        );
                                    assert(states[(a, b)] == earlier[(a, b)]);
                                    assert(states[spec_previous_cell(a, b, columns as int)]
                                        == earlier[spec_previous_cell(a, b, columns as int)]);
                                }
                                assert forall|x: int, y: int|
                                    buffer.has(x, y) && spec_covered(
                                        x,
                                        y,
                                        gx + 1,
                                        gy as int,
                                        px + step,
                                        py as int,
                                        full,
                                        size as int,
                                        overlap as int,
                                    ) implies spec_appears_in(
                                    &self.source(),
                                    #[trigger] buffer.at(x, y),
                                ) by {
                                    assert(before.has(x, y));
                                    if spec_under_patch(place, x, y) {
                                        assert(self.source.has(ax + (x - px), ay + (y - py)));
                                        if spec_in_overlap(
                                            place.area,
                                            overlap as int,
                                            x - px,
                                            y - py,
                                        ) && buffer.at(x, y) != self.source.at(
                                            ax + (x - px),
                                            ay + (y - py),
                                        ) {
                                            assert(buffer.at(x, y) == before.at(x, y));
                                            assert(spec_covered(
                                                x,
                                                y,
                                                gx as int,
                                                gy as int,
                                                px as int,
                                                py as int,
                                                full,
                                                size as int,
                                                overlap as int,
                                            ));
                                        }
                                    } else {
                                        assert(buffer.at(x, y) == before.at(x, y));
                                        assert(spec_covered(
                                            x,
                                            y,
                                            gx as int,
                                            gy as int,
                                            px as int,
                                            py as int,
                                            full,
                                            size as int,
                                            overlap as int,
                                        ));
                                    }
                                }
                                assert forall|x: int, y: int|
                                    0 <= x < step && 0 <= y < step implies #[trigger] buffer.at(
                                    x,
                                    y,
                                ) == self.source().at(sx + x, sy + y) by {
                                    assert(before.has(x, y));
                                    assert(!spec_under_patch(place, x, y));
                                }
                            }
                        },
                        Err(e) => {
                            return Err(e);
                        },
                    }
                }
                gx += 1;
                px += step;
            }
            proof {
                lemma_multiples(columns as int - 1, columns as int - 1, step as int);
                assert(px + overlap == full);
            }
            gy += 1;
            py += step;
        }
        let img = buffer.sub_image(&Rect::new(0, 0, w, h));
        proof {
            lemma_multiples(columns as int - 1, columns as int - 1, step as int);
            assert forall|x: int, y: int| img.has(x, y) implies spec_appears_in(
                &old(self).source(),
                #[trigger] img.at(x, y),
            ) by {
                assert(buffer.has(x, y));
                assert(spec_covered(
                    x,
                    y,
                    0,
                    gy as int,
                    0,
                    py as int,
                    full,
                    size as int,
                    overlap as int,
                ));
            }
            assert(spec_quilted(
                &old(self).source(),
                &old(self).params(),
                states,
                sx as int,
                sy as int,
                &img,
            ));
            assert(exists|states: Map<(int, int), Image>, sx: int, sy: int| #[trigger]
                spec_quilted(&old(self).source(), &old(self).params(), states, sx, sy, &img));
            if let Some(s) = old(self).params().seed_coords() {
                assert forall|x: int, y: int|
                    img.has(x, y) && x < old(self).params().step() && y < old(
                        self,
                    ).params().step() implies #[trigger] img.at(x, y) == old(self).source().at(
                    s.0 + x,
                    s.1 + y,
                ) by {
                    assert(buffer.has(x, y));
                }
            }
        }
        Ok(img)
    }
}

} // verus!

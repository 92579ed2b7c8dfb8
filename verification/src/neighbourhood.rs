//! Neighbourhoods: masks laid over an image around a reference pixel, which
//! pick the pixels that take part in a comparison.

use vstd::prelude::*;
use crate::distance::{pixel_distance, spec_pixel_distance};
use crate::grid::{Grid, lemma_index_in_range, MAX_CELLS};
use crate::pixel::Pixel;

verus! {

/// One cell of a neighbourhood: whether the pixel under it takes part.
#[derive(Debug, Clone, Copy, PartialEq, Eq, Structural)]
pub enum NeighbourhoodElem {
    On,
    Off,
}

/// Encodes a neighbourhood.
#[derive(Debug)]
pub struct Neighbourhood {
    elems: Grid<NeighbourhoodElem>,
    reference: (usize, usize),
}

/// The part of a neighbourhood that lies over an image: `width` by `height`
/// cells, which start at `(left, top)` in the neighbourhood and at `(x, y)`
/// in the image.
pub struct Window {
    pub left: int,
    pub top: int,
    pub x: int,
    pub y: int,
    pub width: int,
    pub height: int,
}

/// How much of an extent of `len` cells, whose reference cell `reference` is
/// laid on position `at` of an axis of `limit` cells, is kept: the cells cut
/// at the low end, where the rest starts on the axis, and how many cells are
/// left. Where none is left, all three are zero.
pub open spec fn spec_crop(len: int, reference: int, at: int, limit: int) -> (int, int, int) {
    let low = if at < reference {
        reference - at
    } else {
        0
    };
    let start = if at < reference {
        0
    } else {
        at - reference
    };
    let high = if at + len > limit {
        at + len - limit
    } else {
        0
    };
    if low + high >= len {
        (0, 0, 0)
    } else {
        (low, start, len - (low + high))
    }
}

/// Computes `spec_crop`.
fn crop(len: u32, reference: usize, at: usize, limit: u32) -> (r: (u32, u32, u32))
    ensures
        (r.0 as int, r.1 as int, r.2 as int) == spec_crop(
            len as int,
            reference as int,
            at as int,
            limit as int,
        ),
        r.1 + r.2 <= limit,
        r.0 + r.2 <= len,
{
    let low: u128 = if at < reference {
        (reference - at) as u128
    } else {
        0
    };
    let start: u128 = if at < reference {
        0
    } else {
        (at - reference) as u128
    };
    let high: u128 = if at as u128 + len as u128 > limit as u128 {
        at as u128 + len as u128 - limit as u128
    } else {
        0
    };
    if low + high >= len as u128 {
        (0, 0, 0)
    } else {
        let kept: u128 = len as u128 - (low + high);
        (low as u32, start as u32, kept as u32)
    }
}

impl Neighbourhood {
    /// The neighbourhood's cells.
    pub closed spec fn elems(&self) -> Grid<NeighbourhoodElem> {
        self.elems
    }

    /// The cell of the neighbourhood that is laid on the reference pixel.
    pub closed spec fn reference(&self) -> (usize, usize) {
        self.reference
    }

    /// The neighbourhood's invariant: its cells form a well-formed grid.
    pub open spec fn wf(&self) -> bool {
        self.elems().wf()
    }

    /// Construct a new neighbourhood from a grid of `NeighbourhoodElem`.
    pub fn new(elems: Grid<NeighbourhoodElem>, reference: (usize, usize)) -> (n: Neighbourhood)
        requires
            elems.wf(),
        ensures
            n.wf(),
            n.elems() == elems,
            n.reference() == reference,
    {
        Neighbourhood { elems, reference }
    }

    /// The part of the neighbourhood that lies over an image of `width` by
    /// `height` pixels when the reference cell is laid on `img_ref`.
    pub open spec fn spec_window(&self, width: int, height: int, img_ref: (usize, usize)) -> Window {
        let (left, x, w) = spec_crop(
            self.elems().spec_width() as int,
            self.reference().0 as int,
            img_ref.0 as int,
            width,
        );
        let (top, y, h) = spec_crop(
            self.elems().spec_height() as int,
            self.reference().1 as int,
            img_ref.1 as int,
            height,
        );
        Window { left, top, x, y, width: w, height: h }
    }

    /// The pixels of `img` under the cells that are `On`, row by row, when the
    /// reference cell is laid on `img_ref`.
    pub open spec fn spec_image_iter<T: Copy>(
        &self,
        img: &Grid<T>,
        img_ref: (usize, usize),
    ) -> Seq<T> {
        let win = self.spec_window(
            img.spec_width() as int,
            img.spec_height() as int,
            img_ref,
        );
        window_cells(win).filter(|c: (int, int)| self.on(win, c)).map_values(
            |c: (int, int)| img.at(win.x + c.0, win.y + c.1),
        )
    }

    /// The cell of the neighbourhood over cell `c` of the window is `On`.
    pub open spec fn on(&self, win: Window, c: (int, int)) -> bool {
        self.elems().at(win.left + c.0, win.top + c.1) == NeighbourhoodElem::On
    }

    /// The pixels of `img` under the cells that are `On`, row by row, when the
    /// reference cell is laid on `img_ref`. Where the neighbourhood reaches
    /// over an edge of the image, it is cropped.
    pub fn image_iter<T: Copy>(&self, img: &Grid<T>, img_ref: (usize, usize)) -> (pixels: Vec<T>)
        requires
            self.wf(),
            img.wf(),
        ensures
            pixels@ == self.spec_image_iter(img, img_ref),
            pixels@.len() <= MAX_CELLS,
    {
        let (left, x, w) = crop(self.elems.width(), self.reference.0, img_ref.0, img.width());
        let (top, y, h) = crop(self.elems.height(), self.reference.1, img_ref.1, img.height());
        let ghost win = self.spec_window(
            img.spec_width() as int,
            img.spec_height() as int,
            img_ref,
        );
        let ghost cells = window_cells(win);
        let ghost keep = |c: (int, int)| self.on(win, c);
        let ghost pick = |c: (int, int)| img.at(win.x + c.0, win.y + c.1);
        let mut pixels: Vec<T> = Vec::new();
        if w == 0 || h == 0 {
            proof {
                assert(win.width * win.height == 0) by (nonlinear_arith)
                    requires
                        win.width == 0 || win.height == 0,
                ;
                assert(cells =~= Seq::<(int, int)>::empty());
                reveal(Seq::filter);
                assert(cells.filter(keep).map_values(pick) =~= Seq::<T>::empty());
            }
            return pixels;
        }
        assert(win.width == w && win.height == h && win.left == left && win.top == top && win.x == x
            && win.y == y);
        proof {
            reveal(Seq::filter);
            assert(cells.take(0) =~= Seq::<(int, int)>::empty());
            assert(cells.take(0).filter(keep).map_values(pick) =~= Seq::<T>::empty());
        }
        let mut j: u32 = 0;
        while j < h
            invariant
                self.wf(),
                img.wf(),
                0 < w,
                j <= h,
                win.width == w && win.height == h && win.left == left && win.top == top && win.x
                    == x && win.y == y,
                x + w <= img.spec_width(),
                y + h <= img.spec_height(),
                left + w <= self.elems.spec_width(),
                top + h <= self.elems.spec_height(),
                cells == window_cells(win),
                keep == (|c: (int, int)| self.on(win, c)),
                pick == (|c: (int, int)| img.at(win.x + c.0, win.y + c.1)),
                0 <= j * w <= cells.len(),
                pixels@ == cells.take(j * w).filter(keep).map_values(pick),
            decreases h - j,
        {
            let mut i: u32 = 0;
            while i < w
                invariant
                    self.wf(),
                    img.wf(),
                    0 < w,
                    j < h,
                    i <= w,
                    win.width == w && win.height == h && win.left == left && win.top == top
                        && win.x == x && win.y == y,
                    x + w <= img.spec_width(),
                    y + h <= img.spec_height(),
                    left + w <= self.elems.spec_width(),
                    top + h <= self.elems.spec_height(),
                    cells == window_cells(win),
                    keep == (|c: (int, int)| self.on(win, c)),
                    pick == (|c: (int, int)| img.at(win.x + c.0, win.y + c.1)),
                    0 <= j * w + i <= cells.len(),
                    pixels@ == cells.take(j * w + i).filter(keep).map_values(pick),
                decreases w - i,
            {
                let ghost k = j * w + i;
                proof {
                    lemma_index_in_range(i as int, j as int, w as int, h as int);
                    assert(cells[k] == (i as int, j as int));
                    cells.lemma_take_succ_push(k);
                    cells.take(k).lemma_filter_push(cells[k], keep);
                    cells.take(k).filter(keep).lemma_push_map_commute(pick, cells[k]);
                }
                if self.elems.get_pixel(left + i, top + j) == NeighbourhoodElem::On {
                    pixels.push(img.get_pixel(x + i, y + j));
                }
                i += 1;
            }
            proof {
                assert(j * w + w == (j + 1) * w) by (nonlinear_arith);
            }
            j += 1;
        }
        proof {
            assert(j * w == cells.len()) by (nonlinear_arith)
                requires
                    j == h,
                    cells.len() == w * h,
            ;
            assert(cells.take(cells.len() as int) =~= cells);
            cells.lemma_filter_len(keep);
            self.elems.lemma_area();
            assert(w * h <= self.elems.spec_width() * self.elems.spec_height()) by (nonlinear_arith)
                requires
                    0 <= w <= self.elems.spec_width(),
                    0 <= h <= self.elems.spec_height(),
            ;
        }
        pixels
    }

    /// The sum of the distances between the pixels that the neighbourhood
    /// picks in `img1` around `p1` and those it picks in `img2` around `p2`,
    /// paired in order.
    pub fn difference<P: Pixel>(
        &self,
        p1: (usize, usize),
        img1: &Grid<P>,
        p2: (usize, usize),
        img2: &Grid<P>,
    ) -> (d: u64)
        requires
            self.wf(),
            img1.wf(),
            img2.wf(),
        ensures
            d == spec_paired_distance(
                self.spec_image_iter(img1, p1),
                self.spec_image_iter(img2, p2),
            ),
    {
        let pixels1 = self.image_iter(img1, p1);
        let pixels2 = self.image_iter(img2, p2);
        paired_distance(&pixels1, &pixels2)
    }
}

/// The cells of a window, row by row, each as `(column, row)`.
pub open spec fn window_cells(win: Window) -> Seq<(int, int)> {
    Seq::new((win.width * win.height) as nat, |k: int| (k % win.width, k / win.width))
}

/// The sum of the distances between the first `n` pixels of `s1` and the
/// first `n` of `s2`, each paired with the one at the same place.
pub open spec fn spec_paired_prefix<P: Pixel>(s1: Seq<P>, s2: Seq<P>, n: int) -> nat
    decreases n,
{
    if n <= 0 {
        0
    } else {
        spec_paired_prefix(s1, s2, n - 1) + spec_pixel_distance(s1[n - 1], s2[n - 1])
    }
}

/// The sum of the distances between the pixels of `s1` and `s2` that stand at
/// the same place; what one sequence has more than the other is left out.
pub open spec fn spec_paired_distance<P: Pixel>(s1: Seq<P>, s2: Seq<P>) -> nat {
    spec_paired_prefix(
        s1,
        s2,
        if s1.len() <= s2.len() {
            s1.len() as int
        } else {
            s2.len() as int
        },
    )
}

/// Computes `spec_paired_distance`.
fn paired_distance<P: Pixel>(s1: &Vec<P>, s2: &Vec<P>) -> (d: u64)
    requires
        s1@.len() <= MAX_CELLS,
    ensures
        d == spec_paired_distance(s1@, s2@),
{
    let n = if s1.len() <= s2.len() {
        s1.len()
    } else {
        s2.len()
    };
    let mut d: u64 = 0;
    let mut k: usize = 0;
    while k < n
        invariant
            k <= n <= s1@.len(),
            n <= s2@.len(),
            n <= MAX_CELLS,
            d == spec_paired_prefix(s1@, s2@, k as int),
            d <= k * 65535,
        decreases n - k,
    {
        let e = pixel_distance(&s1[k], &s2[k]);
        d = d + e as u64;
        k += 1;
    }
    d
}

} // verus!

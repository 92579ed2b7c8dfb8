//! Rectangular grids of cells, the common store behind images, masks and
//! error surfaces.

use vstd::prelude::*;

verus! {

/// The largest number of cells a grid may hold. Cells are addressed with
/// 32-bit indices, so that a grid behaves alike on every target.
pub const MAX_CELLS: u32 = 0xffff_ffff;

/// An axis-aligned rectangle: top-left corner and extent, both as
/// `(horizontal, vertical)`.
#[derive(Clone, Copy, Debug)]
pub struct Rect {
    pub coords: (u32, u32),
    pub size: (u32, u32),
}

impl Rect {
    /// The rectangle with top-left corner `(x, y)`, `width` columns and
    /// `height` rows.
    pub fn new(x: u32, y: u32, width: u32, height: u32) -> (r: Rect)
        ensures
            r.coords == (x, y),
            r.size == (width, height),
    {
        Rect { coords: (x, y), size: (width, height) }
    }

    /// The rectangle lies wholly inside a grid of `width` by `height` cells.
    pub open spec fn fits(&self, width: int, height: int) -> bool {
        &&& self.coords.0 + self.size.0 <= width
        &&& self.coords.1 + self.size.1 <= height
    }

    /// The cell `(x, y)` lies inside the rectangle.
    pub open spec fn contains(&self, x: int, y: int) -> bool {
        &&& self.coords.0 <= x < self.coords.0 + self.size.0
        &&& self.coords.1 <= y < self.coords.1 + self.size.1
    }

    /// Decides whether the rectangle lies wholly inside a grid of `width` by
    /// `height` cells.
    pub fn fits_in(&self, width: u32, height: u32) -> (b: bool)
        ensures
            b == self.fits(width as int, height as int),
    {
        self.coords.0 as u64 + self.size.0 as u64 <= width as u64 && self.coords.1 as u64
            + self.size.1 as u64 <= height as u64
    }
}

/// A square region of a source image: top-left corner and side length.
#[derive(Clone, Copy, Debug)]
pub struct Patch {
    pub coords: (u32, u32),
    pub size: u32,
}

impl Patch {
    /// The square patch with top-left corner `(x, y)` and side `size`.
    pub fn new(x: u32, y: u32, size: u32) -> (p: Patch)
        ensures
            p.coords == (x, y),
            p.size == size,
    {
        Patch { coords: (x, y), size }
    }

    /// The rectangle the patch covers.
    pub open spec fn spec_rect(&self) -> Rect {
        Rect { coords: self.coords, size: (self.size, self.size) }
    }

    /// The rectangle the patch covers.
    pub fn rect(&self) -> (r: Rect)
        ensures
            r == self.spec_rect(),
    {
        Rect { coords: self.coords, size: (self.size, self.size) }
    }
}

/// A `width` by `height` grid of cells, stored row by row.
#[derive(Debug)]
pub struct Grid<T> {
    width: u32,
    height: u32,
    cells: Vec<T>,
}

/// `y * width + x` stays below `width * height` for a cell inside the grid.
pub proof fn lemma_index_in_range(x: int, y: int, width: int, height: int)
    requires
        0 <= x < width,
        0 <= y < height,
    ensures
        0 <= y * width + x < width * height,
        (y * width + x) % width == x,
        (y * width + x) / width == y,
{
    assert(y * width + width <= height * width) by (nonlinear_arith)
        requires
            y + 1 <= height,
            0 <= width,
    ;
    assert(0 <= y * width) by (nonlinear_arith)
        requires
            0 <= y,
            0 <= width,
    ;
    assert(height * width == width * height) by (nonlinear_arith);
    vstd::arithmetic::div_mod::lemma_fundamental_div_mod_converse(y * width + x, width, y, x);
}

/// The product of two 32-bit extents, which always fits 64 bits.
pub fn area_of(width: u32, height: u32) -> (area: u64)
    ensures
        area == width * height,
{
    assert(width * height <= 0xffff_ffff * 0xffff_ffff) by (nonlinear_arith)
        requires
            0 <= width <= 0xffff_ffff,
            0 <= height <= 0xffff_ffff,
    ;
    width as u64 * height as u64
}

impl<T: Copy> Grid<T> {
    /// The grid's invariant: it holds one cell for each position, and no more
    /// than `MAX_CELLS` of them.
    pub closed spec fn wf(&self) -> bool {
        &&& self.cells@.len() == self.width as int * self.height as int
        &&& self.width as int * self.height as int <= MAX_CELLS
    }

    /// Number of columns.
    pub closed spec fn spec_width(&self) -> u32 {
        self.width
    }

    /// Number of rows.
    pub closed spec fn spec_height(&self) -> u32 {
        self.height
    }

    /// The cells, row by row.
    pub closed spec fn cells(&self) -> Seq<T> {
        self.cells@
    }

    /// Where the cell `(x, y)` stands among `cells()`.
    pub open spec fn index_of(&self, x: int, y: int) -> int {
        y * self.spec_width() + x
    }

    /// The cell in column `x` of row `y`.
    pub open spec fn at(&self, x: int, y: int) -> T {
        self.cells()[self.index_of(x, y)]
    }

    /// `(x, y)` names a cell of the grid.
    pub open spec fn has(&self, x: int, y: int) -> bool {
        0 <= x < self.spec_width() && 0 <= y < self.spec_height()
    }

    /// A well-formed grid has `width * height` cells, at most `MAX_CELLS`.
    pub proof fn lemma_area(&self)
        requires
            self.wf(),
        ensures
            self.cells().len() == self.spec_width() * self.spec_height(),
            self.spec_width() * self.spec_height() <= MAX_CELLS,
    {
    }

    /// A grid of `width` by `height` cells, each holding `value`; `None` when
    /// that would be more than `MAX_CELLS` cells.
    pub fn filled(width: u32, height: u32, value: T) -> (r: Option<Grid<T>>)
        ensures
            r is Some <==> width * height <= MAX_CELLS,
            r matches Some(g) ==> {
                &&& g.wf()
                &&& g.spec_width() == width
                &&& g.spec_height() == height
                &&& forall|x: int, y: int| g.has(x, y) ==> g.at(x, y) == value
                &&& forall|i: int| 0 <= i < g.cells().len() ==> g.cells()[i] == value
            },
    {
        let area: u64 = area_of(width, height);
        if area > MAX_CELLS as u64 {
            return None;
        }
        let mut cells: Vec<T> = Vec::new();
        let mut i: u64 = 0;
        while i < area
            invariant
                i <= area,
                cells@.len() == i,
                forall|j: int| 0 <= j < i ==> cells@[j] == value,
            decreases area - i,
        {
            cells.push(value);
            i += 1;
        }
        let g = Grid { width, height, cells };
        proof {
            assert forall|x: int, y: int| g.has(x, y) implies g.at(x, y) == value by {
                lemma_index_in_range(x, y, width as int, height as int);
            }
        }
        Some(g)
    }

    /// A grid without cells: one that has no columns or no rows.
    pub fn without_cells(width: u32, height: u32) -> (g: Grid<T>)
        requires
            width == 0 || height == 0,
        ensures
            g.wf(),
            g.spec_width() == width,
            g.spec_height() == height,
    {
        assert(width * height == 0) by (nonlinear_arith)
            requires
                width == 0 || height == 0,
        ;
        Grid { width, height, cells: Vec::new() }
    }

    /// The grid of `width` by `height` cells that holds `cells` row by row;
    /// `None` unless there are exactly `width * height` of them, and at most
    /// `MAX_CELLS`.
    pub fn from_vec(width: u32, height: u32, cells: Vec<T>) -> (r: Option<Grid<T>>)
        ensures
            r is Some <==> (cells@.len() == width * height && width * height <= MAX_CELLS),
            r matches Some(g) ==> {
                &&& g.wf()
                &&& g.spec_width() == width
                &&& g.spec_height() == height
                &&& g.cells() == cells@
            },
    {
        let area: u64 = area_of(width, height);
        if area > MAX_CELLS as u64 || cells.len() as u64 != area {
            return None;
        }
        Some(Grid { width, height, cells })
    }

    /// Number of columns.
    pub fn width(&self) -> (w: u32)
        ensures
            w == self.spec_width(),
    {
        self.width
    }

    /// Number of rows.
    pub fn height(&self) -> (h: u32)
        ensures
            h == self.spec_height(),
    {
        self.height
    }

    /// The cell in column `x` of row `y`.
    pub fn get_pixel(&self, x: u32, y: u32) -> (v: T)
        requires
            self.wf(),
            self.has(x as int, y as int),
        ensures
            v == self.at(x as int, y as int),
    {
        proof {
            lemma_index_in_range(x as int, y as int, self.width as int, self.height as int);
        }
        let i: u64 = y as u64 * self.width as u64 + x as u64;
        self.cells[i as usize]
    }

    /// Stores `value` in column `x` of row `y`; every other cell keeps its
    /// value.
    pub fn put_pixel(&mut self, x: u32, y: u32, value: T)
        requires
            old(self).wf(),
            old(self).has(x as int, y as int),
        ensures
            final(self).wf(),
            final(self).spec_width() == old(self).spec_width(),
            final(self).spec_height() == old(self).spec_height(),
            final(self).at(x as int, y as int) == value,
            forall|i: int, j: int|
                old(self).has(i, j) && (i != x || j != y) ==> final(self).at(i, j) == old(self).at(
                    i,
                    j,
                ),
            final(self).cells() == old(self).cells().update(
                old(self).index_of(x as int, y as int),
                value,
            ),
            0 <= old(self).index_of(x as int, y as int) < old(self).cells().len(),
    {
        proof {
            lemma_index_in_range(x as int, y as int, self.width as int, self.height as int);
        }
        let i: u64 = y as u64 * self.width as u64 + x as u64;
        self.cells[i as usize] = value;
        proof {
            assert forall|a: int, b: int| old(self).has(a, b) && (a != x || b != y) implies self.at(
                a,
                b,
            ) == old(self).at(a, b) by {
                lemma_index_in_range(a, b, self.width as int, self.height as int);
            }
        }
    }

    /// Stores `value` in every cell of `rect`; every other cell keeps its
    /// value.
    pub fn fill_rect(&mut self, rect: &Rect, value: T)
        requires
            old(self).wf(),
            rect.fits(old(self).spec_width() as int, old(self).spec_height() as int),
        ensures
            final(self).wf(),
            final(self).spec_width() == old(self).spec_width(),
            final(self).spec_height() == old(self).spec_height(),
            forall|x: int, y: int|
                old(self).has(x, y) ==> #[trigger] final(self).at(x, y) == (if rect.contains(x, y) {
                    value
                } else {
                    old(self).at(x, y)
                }),
    {
        let (rx, ry) = rect.coords;
        let (rw, rh) = rect.size;
        let mut j: u32 = 0;
        while j < rh
            invariant
                self.wf(),
                self.spec_width() == old(self).spec_width(),
                self.spec_height() == old(self).spec_height(),
                rect.fits(self.spec_width() as int, self.spec_height() as int),
                (rx, ry) == rect.coords,
                (rw, rh) == rect.size,
                j <= rh,
                forall|x: int, y: int|
                    old(self).has(x, y) ==> #[trigger] self.at(x, y) == (if rect.contains(x, y) && y
                        < ry + j {
                        value
                    } else {
                        old(self).at(x, y)
                    }),
            decreases rh - j,
        {
            let mut i: u32 = 0;
            while i < rw
                invariant
                    self.wf(),
                    self.spec_width() == old(self).spec_width(),
                    self.spec_height() == old(self).spec_height(),
                    rect.fits(self.spec_width() as int, self.spec_height() as int),
                    (rx, ry) == rect.coords,
                    (rw, rh) == rect.size,
                    j < rh,
                    i <= rw,
                    forall|x: int, y: int|
                        old(self).has(x, y) ==> #[trigger] self.at(x, y) == (if rect.contains(x, y)
                            && (y < ry + j || (y == ry + j && x < rx + i)) {
                            value
                        } else {
                            old(self).at(x, y)
                        }),
                decreases rw - i,
            {
                self.put_pixel(rx + i, ry + j, value);
                i += 1;
            }
            j += 1;
        }
    }

    /// Copies the cells of `src_rect` in `source` to the rectangle of the
    /// same size whose top-left corner is `dst`; every other cell keeps its
    /// value.
    pub fn blit_rect(&mut self, src_rect: &Rect, dst: (u32, u32), source: &Grid<T>)
        requires
            old(self).wf(),
            source.wf(),
            src_rect.fits(source.spec_width() as int, source.spec_height() as int),
            dst.0 + src_rect.size.0 <= old(self).spec_width(),
            dst.1 + src_rect.size.1 <= old(self).spec_height(),
        ensures
            final(self).wf(),
            final(self).spec_width() == old(self).spec_width(),
            final(self).spec_height() == old(self).spec_height(),
            forall|x: int, y: int|
                old(self).has(x, y) ==> #[trigger] final(self).at(x, y) == (if dst.0 <= x < dst.0
                    + src_rect.size.0 && dst.1 <= y < dst.1 + src_rect.size.1 {
                    source.at(src_rect.coords.0 + (x - dst.0), src_rect.coords.1 + (y - dst.1))
                } else {
                    old(self).at(x, y)
                }),
    {
        let (sx, sy) = src_rect.coords;
        let (rw, rh) = src_rect.size;
        let (dx, dy) = dst;
        let mut j: u32 = 0;
        while j < rh
            invariant
                self.wf(),
                source.wf(),
                self.spec_width() == old(self).spec_width(),
                self.spec_height() == old(self).spec_height(),
                src_rect.fits(source.spec_width() as int, source.spec_height() as int),
                dx + rw <= self.spec_width(),
                dy + rh <= self.spec_height(),
                (sx, sy) == src_rect.coords,
                (rw, rh) == src_rect.size,
                j <= rh,
                forall|x: int, y: int|
                    old(self).has(x, y) ==> #[trigger] self.at(x, y) == (if dx <= x < dx + rw && dy
                        <= y < dy + j {
                        source.at(sx + (x - dx), sy + (y - dy))
                    } else {
                        old(self).at(x, y)
                    }),
            decreases rh - j,
        {
            let mut i: u32 = 0;
            while i < rw
                invariant
                    self.wf(),
                    source.wf(),
                    self.spec_width() == old(self).spec_width(),
                    self.spec_height() == old(self).spec_height(),
                    src_rect.fits(source.spec_width() as int, source.spec_height() as int),
                    dx + rw <= self.spec_width(),
                    dy + rh <= self.spec_height(),
                    (sx, sy) == src_rect.coords,
                    (rw, rh) == src_rect.size,
                    j < rh,
                    i <= rw,
                    forall|x: int, y: int|
                        old(self).has(x, y) ==> #[trigger] self.at(x, y) == (if dx <= x < dx + rw
                            && dy <= y < dy + rh && (y < dy + j || (y == dy + j && x < dx + i)) {
                            source.at(sx + (x - dx), sy + (y - dy))
                        } else {
                            old(self).at(x, y)
                        }),
                decreases rw - i,
            {
                let value = source.get_pixel(sx + i, sy + j);
                self.put_pixel(dx + i, dy + j, value);
                i += 1;
            }
            j += 1;
        }
    }

    /// A grid of its own that holds the cells of `rect`.
    pub fn sub_image(&self, rect: &Rect) -> (sub: Grid<T>)
        requires
            self.wf(),
            rect.fits(self.spec_width() as int, self.spec_height() as int),
        ensures
            sub.wf(),
            sub.spec_width() == rect.size.0,
            sub.spec_height() == rect.size.1,
            forall|x: int, y: int|
                sub.has(x, y) ==> #[trigger] sub.at(x, y) == self.at(
                    rect.coords.0 + x,
                    rect.coords.1 + y,
                ),
    {
        let (rw, rh) = rect.size;
        proof {
            assert(rw * rh <= self.spec_width() * self.spec_height()) by (nonlinear_arith)
                requires
                    0 <= rw <= self.spec_width(),
                    0 <= rh <= self.spec_height(),
            ;
        }
        if rw == 0 || rh == 0 {
            return Grid::without_cells(rw, rh);
        }
        let first = self.get_pixel(rect.coords.0, rect.coords.1);
        let mut sub = Grid::filled(rw, rh, first).unwrap();
        sub.blit_rect(rect, (0, 0), self);
        sub
    }
}

} // verus!

//! Image pyramids: an image and a sequence of ever smaller versions of it,
//! each half as wide and half as high as the one before.
//!
//! The library halves the images; blurring them before is left to the
//! caller, who is handed each image to blur in turn.

use vstd::prelude::*;
use vstd::arithmetic::power2::{pow2, lemma2_to64, lemma_pow2_unfold};
use crate::errors::{Error, InvalidArgument};
use crate::grid::Grid;
use crate::pixel::Image;

verus! {

/// Whether `n` is a power of two.
pub open spec fn spec_is_power_of_2(n: nat) -> bool
    decreases n,
{
    if n == 0 {
        false
    } else if n == 1 {
        true
    } else {
        n % 2 == 0 && spec_is_power_of_2(n / 2)
    }
}

/// Tells whether `n` is a power of two.
pub fn is_power_of_2(n: u32) -> (b: bool)
    ensures
        b == spec_is_power_of_2(n as nat),
    decreases n,
{
    if n == 0 {
        false
    } else if n == 1 {
        true
    } else if n % 2 == 0 {
        is_power_of_2(n / 2)
    } else {
        false
    }
}

/// How often `n` can be halved before it reaches one: the logarithm of `n`
/// to the base two, rounded down.
pub open spec fn spec_halvings(n: nat) -> nat
    decreases n,
{
    if n <= 1 {
        0
    } else {
        1 + spec_halvings(n / 2)
    }
}

/// How often `n` can be halved before it reaches one.
pub fn halvings(n: u32) -> (k: u32)
    ensures
        k == spec_halvings(n as nat),
        k < 32,
{
    let mut rest: u32 = n;
    let mut k: u32 = 0;
    proof {
        lemma2_to64();
    }
    while rest > 1
        invariant
            k + spec_halvings(rest as nat) == spec_halvings(n as nat),
            k <= 31,
            rest < pow2((32 - k) as nat),
        decreases rest,
    {
        proof {
            lemma2_to64();
            lemma_pow2_unfold((32 - k) as nat);
        }
        rest = rest / 2;
        k += 1;
    }
    k
}

/// The image of half the width and half the height that keeps every second
/// pixel of every second row.
pub fn downsample<T: Copy>(img: &Grid<T>) -> (half: Grid<T>)
    requires
        img.wf(),
    ensures
        half.wf(),
        half.spec_width() == img.spec_width() / 2,
        half.spec_height() == img.spec_height() / 2,
        forall|x: int, y: int| half.has(x, y) ==> #[trigger] half.at(x, y) == img.at(2 * x, 2 * y),
{
    let w: u32 = img.width() / 2;
    let h: u32 = img.height() / 2;
    if w == 0 || h == 0 {
        return Grid::without_cells(w, h);
    }
    proof {
        img.lemma_area();
        assert(w * h <= img.spec_width() * img.spec_height()) by (nonlinear_arith)
            requires
                0 <= w <= img.spec_width(),
                0 <= h <= img.spec_height(),
        ;
    }
    let mut half = Grid::filled(w, h, img.get_pixel(0, 0)).unwrap();
    let mut x: u32 = 0;
    while x < w
        invariant
            img.wf(),
            half.wf(),
            w == img.spec_width() / 2,
            h == img.spec_height() / 2,
            half.spec_width() == w,
            half.spec_height() == h,
            x <= w,
            forall|a: int, b: int|
                half.has(a, b) && a < x ==> #[trigger] half.at(a, b) == img.at(2 * a, 2 * b),
        decreases w - x,
    {
        let mut y: u32 = 0;
        while y < h
            invariant
                img.wf(),
                half.wf(),
                w == img.spec_width() / 2,
                h == img.spec_height() / 2,
                half.spec_width() == w,
                half.spec_height() == h,
                x < w,
                y <= h,
                forall|a: int, b: int|
                    half.has(a, b) && (a < x || (a == x && b < y)) ==> #[trigger] half.at(a, b)
                        == img.at(2 * a, 2 * b),
            decreases h - y,
        {
            half.put_pixel(x, y, img.get_pixel(2 * x, 2 * y));
            y += 1;
        }
        x += 1;
    }
    half
}

/// Why a pyramid of `levels` levels cannot be built on an image of `width`
/// by `height` pixels, if it cannot.
pub open spec fn spec_pyramid_refusal(width: u32, height: u32, levels: u32) -> Option<
    InvalidArgument,
> {
    let smaller = if width <= height {
        width
    } else {
        height
    };
    if !spec_is_power_of_2(width as nat) || !spec_is_power_of_2(height as nat) {
        Some(InvalidArgument::DimensionsNotPowerOfTwo)
    } else if spec_halvings(smaller as nat) < levels {
        Some(InvalidArgument::TooManyLevels)
    } else {
        None
    }
}

/// An image and the smaller versions of it that have been made so far, up to
/// the number of levels asked for.
pub struct GaussianPyramid {
    base_image: Image,
    sublevels: Vec<Image>,
    levels: u32,
}

impl GaussianPyramid {
    /// The image at the base of the pyramid.
    pub closed spec fn base_image(&self) -> Image {
        self.base_image
    }

    /// The smaller versions made so far, largest first.
    pub closed spec fn sublevels(&self) -> Seq<Image> {
        self.sublevels@
    }

    /// The number of smaller versions asked for.
    pub closed spec fn levels(&self) -> u32 {
        self.levels
    }

    /// The invariant: every image is well-formed, and there are no more
    /// smaller versions than were asked for.
    pub open spec fn wf(&self) -> bool {
        &&& self.base_image().wf()
        &&& self.sublevels().len() <= self.levels()
        &&& forall|i: int| 0 <= i < self.sublevels().len() ==> (#[trigger] self.sublevels()[i]).wf()
    }

    /// All the levels asked for have been made.
    pub open spec fn spec_is_complete(&self) -> bool {
        self.sublevels().len() == self.levels()
    }

    /// The image that the next level is made from: the last level made, or
    /// the base where none has been.
    pub open spec fn spec_next_source(&self) -> Image {
        if self.sublevels().len() == 0 {
            self.base_image()
        } else {
            self.sublevels().last()
        }
    }

    /// Starts a pyramid of `levels` levels on `base`, with no level made yet.
    /// Both sides of `base` have to be powers of two, and the smaller one has
    /// to allow for `levels` halvings.
    pub fn new(base: Image, levels: u32) -> (r: Result<GaussianPyramid, Error>)
        requires
            base.wf(),
        ensures
            r is Ok <==> spec_pyramid_refusal(base.spec_width(), base.spec_height(), levels)
                is None,
            r matches Ok(p) ==> p.wf() && p.base_image() == base && p.levels() == levels
                && p.sublevels().len() == 0,
            r matches Err(e) ==> e is InvalidArguments && spec_pyramid_refusal(
                base.spec_width(),
                base.spec_height(),
                levels,
            ) == Some(e->InvalidArguments_0),
    {
        if !is_power_of_2(base.width()) || !is_power_of_2(base.height()) {
            return Err(Error::InvalidArguments(InvalidArgument::DimensionsNotPowerOfTwo));
        }
        let smaller = if base.width() <= base.height() {
            base.width()
        } else {
            base.height()
        };
        if halvings(smaller) < levels {
            return Err(Error::InvalidArguments(InvalidArgument::TooManyLevels));
        }
        Ok(GaussianPyramid { base_image: base, sublevels: Vec::new(), levels })
    }

    /// Whether all the levels asked for have been made.
    pub fn is_complete(&self) -> (b: bool)
        requires
            self.wf(),
        ensures
            b == self.spec_is_complete(),
    {
        self.sublevels.len() == self.levels as usize
    }

    /// The image that the next level is made from, for the caller to blur.
    pub fn next_source(&self) -> (img: &Image)
        requires
            self.wf(),
        ensures
            *img == self.spec_next_source(),
            img.wf(),
    {
        let n = self.sublevels.len();
        if n == 0 {
            &self.base_image
        } else {
            &self.sublevels[n - 1]
        }
    }

    /// Makes the next level from `blurred`, the blurred version of
    /// `next_source()`: the level is `blurred` at half the width and height.
    pub fn push_blurred(&mut self, blurred: &Image)
        requires
            old(self).wf(),
            !old(self).spec_is_complete(),
            blurred.wf(),
        ensures
            final(self).wf(),
            final(self).base_image() == old(self).base_image(),
            final(self).levels() == old(self).levels(),
            final(self).sublevels().len() == old(self).sublevels().len() + 1,
            final(self).sublevels().drop_last() == old(self).sublevels(),
            final(self).sublevels().last().spec_width() == blurred.spec_width() / 2,
            final(self).sublevels().last().spec_height() == blurred.spec_height() / 2,
            forall|x: int, y: int|
                final(self).sublevels().last().has(x, y) ==> #[trigger] final(self).sublevels().last().at(
                    x,
                    y,
                ) == blurred.at(2 * x, 2 * y),
    {
        let level = downsample(blurred);
        self.sublevels.push(level);
        proof {
            assert(self.sublevels@.drop_last() =~= old(self).sublevels@);
        }
    }

    /// The number of levels made so far.
    pub fn len(&self) -> (n: usize)
        ensures
            n == self.sublevels().len(),
    {
        self.sublevels.len()
    }

    /// The level `i`, counted from the largest.
    pub fn level(&self, i: usize) -> (img: &Image)
        requires
            i < self.sublevels().len(),
        ensures
            *img == self.sublevels()[i as int],
    {
        &self.sublevels[i]
    }

    /// The image at the base of the pyramid.
    pub fn base(&self) -> (img: &Image)
        ensures
            *img == self.base_image(),
    {
        &self.base_image
    }
}

} // verus!

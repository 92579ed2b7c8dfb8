//! Pixel types and the images made of them.

use vstd::prelude::*;
use crate::grid::Grid;

verus! {

/// The largest value the squared distance between two pixels may take.
pub const MAX_SQUARED_DISTANCE: u32 = 195075;

/// A colour with three 8-bit channels.
#[derive(Clone, Copy, Debug, PartialEq, Eq, Structural)]
pub struct Rgb {
    pub r: u8,
    pub g: u8,
    pub b: u8,
}

/// A grey level with one 8-bit channel.
#[derive(Clone, Copy, Debug, PartialEq, Eq, Structural)]
pub struct Luma {
    pub value: u8,
}

/// A colour image.
pub type Image = Grid<Rgb>;

/// A grid that tells which cells of an image are already filled.
pub type Mask = Grid<bool>;

/// The distance between two channel values.
pub open spec fn spec_abs_diff(a: u8, b: u8) -> nat {
    if a <= b {
        (b - a) as nat
    } else {
        (a - b) as nat
    }
}

/// The distance between two channel values.
pub fn abs_diff(a: u8, b: u8) -> (d: u8)
    ensures
        d == spec_abs_diff(a, b),
{
    if a <= b {
        b - a
    } else {
        a - b
    }
}

/// The square of the distance between two channel values.
pub open spec fn spec_squared_diff(a: u8, b: u8) -> nat {
    spec_abs_diff(a, b) * spec_abs_diff(a, b)
}

/// The square of the distance between two channel values.
pub fn squared_diff(a: u8, b: u8) -> (d: u32)
    ensures
        d == spec_squared_diff(a, b),
        d <= 65025,
{
    let d: u32 = abs_diff(a, b) as u32;
    assert(d * d <= 65025) by (nonlinear_arith)
        requires
            0 <= d <= 255,
    ;
    d * d
}

/// A pixel: a value whose channels can be compared with another's.
pub trait Pixel: Copy {
    /// The sum, over the channels, of the squared channel differences.
    spec fn spec_squared_distance(&self, other: &Self) -> nat;

    /// The squared distance does not depend on the order of the two pixels,
    /// and never exceeds `MAX_SQUARED_DISTANCE`.
    proof fn lemma_squared_distance(&self, other: &Self)
        ensures
            self.spec_squared_distance(other) == other.spec_squared_distance(self),
            self.spec_squared_distance(other) <= MAX_SQUARED_DISTANCE,
    ;

    /// The sum, over the channels, of the squared channel differences.
    fn squared_distance(&self, other: &Self) -> (d: u32)
        ensures
            d == self.spec_squared_distance(other),
    ;
}

impl Rgb {
    /// The colour with the channels `r`, `g` and `b`.
    pub fn new(r: u8, g: u8, b: u8) -> (p: Rgb)
        ensures
            p == (Rgb { r, g, b }),
    {
        Rgb { r, g, b }
    }
}

impl Luma {
    /// The grey level `value`.
    pub fn new(value: u8) -> (p: Luma)
        ensures
            p == (Luma { value }),
    {
        Luma { value }
    }
}

impl Pixel for Rgb {
    open spec fn spec_squared_distance(&self, other: &Self) -> nat {
        spec_squared_diff(self.r, other.r) + spec_squared_diff(self.g, other.g)
            + spec_squared_diff(self.b, other.b)
    }

    proof fn lemma_squared_distance(&self, other: &Self) {
        lemma_squared_diff(self.r, other.r);
        lemma_squared_diff(self.g, other.g);
        lemma_squared_diff(self.b, other.b);
    }

    fn squared_distance(&self, other: &Self) -> (d: u32) {
        squared_diff(self.r, other.r) + squared_diff(self.g, other.g) + squared_diff(
            self.b,
            other.b,
        )
    }
}

impl Pixel for Luma {
    open spec fn spec_squared_distance(&self, other: &Self) -> nat {
        spec_squared_diff(self.value, other.value)
    }

    proof fn lemma_squared_distance(&self, other: &Self) {
        lemma_squared_diff(self.value, other.value);
    }

    fn squared_distance(&self, other: &Self) -> (d: u32) {
        squared_diff(self.value, other.value)
    }
}

/// A squared channel difference is symmetric and at most `255 * 255`.
pub proof fn lemma_squared_diff(a: u8, b: u8)
    ensures
        spec_squared_diff(a, b) == spec_squared_diff(b, a),
        spec_abs_diff(a, b) == spec_abs_diff(b, a),
        spec_squared_diff(a, b) <= 65025,
{
    let d = spec_abs_diff(a, b);
    assert(d * d <= 65025) by (nonlinear_arith)
        requires
            0 <= d <= 255,
    ;
}

} // verus!

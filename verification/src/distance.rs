//! Distances between colours.
//!
//! Distances are whole numbers: the Manhattan distance is one by nature, and
//! the Euclidean distance is rounded down to the next whole number.

use vstd::prelude::*;
use crate::pixel::{Rgb, Pixel, spec_abs_diff, abs_diff, lemma_squared_diff};

verus! {

/// `r` is the square root of `n`, rounded down.
pub open spec fn is_sqrt_floor(n: nat, r: nat) -> bool {
    r * r <= n < (r + 1) * (r + 1)
}

/// The square root of `n`, rounded down.
pub open spec fn spec_isqrt(n: nat) -> nat {
    choose|r: nat| is_sqrt_floor(n, r)
}

/// At most one number is the rounded-down square root of `n`.
pub proof fn lemma_sqrt_floor_unique(n: nat, r1: nat, r2: nat)
    requires
        is_sqrt_floor(n, r1),
        is_sqrt_floor(n, r2),
    ensures
        r1 == r2,
{
    if r1 < r2 {
        assert((r1 + 1) * (r1 + 1) <= r2 * r2) by (nonlinear_arith)
            requires
                r1 + 1 <= r2,
        ;
    } else if r2 < r1 {
        assert((r2 + 1) * (r2 + 1) <= r1 * r1) by (nonlinear_arith)
            requires
                r2 + 1 <= r1,
        ;
    }
}

/// Every number has a rounded-down square root.
pub proof fn lemma_sqrt_floor_exists(n: nat)
    ensures
        is_sqrt_floor(n, spec_isqrt(n)),
        spec_isqrt(n) <= n,
    decreases n,
{
    if n == 0 {
        assert(0nat * 0nat == 0 && (0nat + 1) * (0nat + 1) == 1) by (nonlinear_arith);
        assert(is_sqrt_floor(0, 0));
    } else {
        lemma_sqrt_floor_exists((n - 1) as nat);
        let r = spec_isqrt((n - 1) as nat);
        if (r + 1) * (r + 1) <= n {
            assert((r + 1) * (r + 1) < (r + 1 + 1) * (r + 1 + 1)) by (nonlinear_arith);
            assert(is_sqrt_floor(n, r + 1));
        } else {
            assert(is_sqrt_floor(n, r));
        }
    }
    let s = spec_isqrt(n);
    assert(s <= s * s) by (nonlinear_arith);
}

/// Any rounded-down square root of `n` is `spec_isqrt(n)`.
pub proof fn lemma_isqrt_is(n: nat, r: nat)
    requires
        is_sqrt_floor(n, r),
    ensures
        spec_isqrt(n) == r,
{
    lemma_sqrt_floor_unique(n, r, spec_isqrt(n));
}

/// The square root of `n`, rounded down.
pub fn isqrt(n: u32) -> (r: u32)
    ensures
        is_sqrt_floor(n as nat, r as nat),
        r == spec_isqrt(n as nat),
        r < 65536,
{
    let mut lo: u64 = 0;
    let mut hi: u64 = 65536;
    while hi - lo > 1
        invariant
            lo < hi <= 65536,
            lo * lo <= n < hi * hi,
        decreases hi - lo,
    {
        let mid: u64 = (lo + hi) / 2;
        assert(mid * mid <= 65536 * 65536) by (nonlinear_arith)
            requires
                0 <= mid <= 65536,
        ;
        if mid * mid <= n as u64 {
            lo = mid;
        } else {
            hi = mid;
        }
    }
    proof {
        lemma_isqrt_is(n as nat, lo as nat);
    }
    lo as u32
}

/// The Manhattan distance between two colours: the sum of the distances
/// between their channels.
pub open spec fn spec_l1(p1: Rgb, p2: Rgb) -> nat {
    spec_abs_diff(p1.r, p2.r) + spec_abs_diff(p1.g, p2.g) + spec_abs_diff(p1.b, p2.b)
}

/// The Euclidean distance between two colours, rounded down.
pub open spec fn spec_l2(p1: Rgb, p2: Rgb) -> nat {
    spec_isqrt(p1.spec_squared_distance(&p2))
}

/// L1 distance, also known as Manhattan distance.
pub fn l1(p1: &Rgb, p2: &Rgb) -> (d: u32)
    ensures
        d == spec_l1(*p1, *p2),
        d <= 765,
{
    abs_diff(p1.r, p2.r) as u32 + abs_diff(p1.g, p2.g) as u32 + abs_diff(p1.b, p2.b) as u32
}

/// L2 distance, also known as Euclidean distance, rounded down to a whole
/// number.
pub fn l2(p1: &Rgb, p2: &Rgb) -> (d: u32)
    ensures
        d == spec_l2(*p1, *p2),
        d <= 441,
{
    proof {
        p1.lemma_squared_distance(p2);
    }
    let d = isqrt(p1.squared_distance(p2));
    assert(d <= 441) by (nonlinear_arith)
        requires
            d * d <= 195075,
            0 <= d,
    ;
    d
}

/// The distance between two pixels of any kind: the Euclidean distance over
/// their channels, rounded down.
pub open spec fn spec_pixel_distance<P: Pixel>(p1: P, p2: P) -> nat {
    spec_isqrt(p1.spec_squared_distance(&p2))
}

/// The distance between two pixels of any kind: the Euclidean distance over
/// their channels, rounded down.
pub fn pixel_distance<P: Pixel>(p1: &P, p2: &P) -> (d: u32)
    ensures
        d == spec_pixel_distance(*p1, *p2),
        d < 65536,
{
    isqrt(p1.squared_distance(p2))
}

/// The Manhattan distance does not depend on the order of the two colours.
pub proof fn lemma_l1_symmetric(p1: Rgb, p2: Rgb)
    ensures
        spec_l1(p1, p2) == spec_l1(p2, p1),
{
    lemma_squared_diff(p1.r, p2.r);
    lemma_squared_diff(p1.g, p2.g);
    lemma_squared_diff(p1.b, p2.b);
}

/// The Euclidean distance does not depend on the order of the two colours.
pub proof fn lemma_l2_symmetric(p1: Rgb, p2: Rgb)
    ensures
        spec_l2(p1, p2) == spec_l2(p2, p1),
{
    p1.lemma_squared_distance(&p2);
}

/// A way to measure how far apart two colours are. A metric can be shared
/// among threads.
pub trait Metric: Sync {
    /// The distance between `p1` and `p2`.
    spec fn spec_distance(&self, p1: Rgb, p2: Rgb) -> nat;

    /// No distance is more than 32 bits can hold.
    proof fn lemma_distance_bound(&self, p1: Rgb, p2: Rgb)
        ensures
            self.spec_distance(p1, p2) <= u32::MAX,
    ;

    /// The distance between `p1` and `p2`.
    fn distance(&self, p1: &Rgb, p2: &Rgb) -> (d: u32)
        ensures
            d == self.spec_distance(*p1, *p2),
    ;
}

/// A metric gives the same distance whichever colour comes first.
pub open spec fn symmetric<M: Metric>(metric: &M) -> bool {
    forall|p1: Rgb, p2: Rgb| #[trigger]
        metric.spec_distance(p1, p2) == metric.spec_distance(p2, p1)
}

/// The Manhattan metric.
#[derive(Clone, Copy, Debug)]
pub struct L1;

/// The Euclidean metric, rounded down to whole numbers.
#[derive(Clone, Copy, Debug)]
pub struct L2;

impl Metric for L1 {
    open spec fn spec_distance(&self, p1: Rgb, p2: Rgb) -> nat {
        spec_l1(p1, p2)
    }

    proof fn lemma_distance_bound(&self, p1: Rgb, p2: Rgb) {
    }

    fn distance(&self, p1: &Rgb, p2: &Rgb) -> (d: u32) {
        l1(p1, p2)
    }
}

impl Metric for L2 {
    open spec fn spec_distance(&self, p1: Rgb, p2: Rgb) -> nat {
        spec_l2(p1, p2)
    }

    proof fn lemma_distance_bound(&self, p1: Rgb, p2: Rgb) {
        p1.lemma_squared_distance(&p2);
        lemma_sqrt_floor_exists(p1.spec_squared_distance(&p2));
    }

    fn distance(&self, p1: &Rgb, p2: &Rgb) -> (d: u32) {
        l2(p1, p2)
    }
}

/// The Manhattan metric is symmetric.
pub proof fn lemma_l1_metric_symmetric()
    ensures
        symmetric(&L1),
{
    assert forall|p1: Rgb, p2: Rgb| #[trigger]
        L1.spec_distance(p1, p2) == L1.spec_distance(p2, p1) by {
        lemma_l1_symmetric(p1, p2);
    }
}

/// The Euclidean metric is symmetric.
pub proof fn lemma_l2_metric_symmetric()
    ensures
        symmetric(&L2),
{
    assert forall|p1: Rgb, p2: Rgb| #[trigger]
        L2.spec_distance(p1, p2) == L2.spec_distance(p2, p1) by {
        lemma_l2_symmetric(p1, p2);
    }
}

} // verus!
